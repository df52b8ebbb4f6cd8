//! The key of the version-guarded tables.

use core::str::FromStr;
use vstd::prelude::*;
use vstd::string::StringSliceAdditionalSpecFns;
use crate::backing;
use crate::unique_stash::text;

verus! {

/// The error of reading a text that is not the text of a key.
#[derive(Debug, Clone, Copy, PartialEq, Eq)]
pub struct TagParseError;

impl TagParseError {
    /// What went wrong, in words.
    pub fn message(&self) -> (msg: &'static str)
        ensures
            msg@ == "failed to parse tag"@,
    {
        "failed to parse tag"
    }
}

/// A versioned index into a `UniqueStash`: the offset of a slot, and the
/// version that the slot had when the key was handed out.
///
/// Can be converted to and from strings of the form `###/###` (no leading
/// zeros). Every tag has exactly one valid string representation.
#[derive(Copy, Clone, Debug, PartialEq, Eq, PartialOrd, Ord, Hash, Structural)]
pub struct Tag {
    /// The offset of the slot.
    pub idx: usize,
    /// The version of the slot.
    pub ver: u64,
}

impl Tag {
    /// The key of the slot at `offset` in its version `version`.
    pub fn new(offset: usize, version: u64) -> (tag: Tag)
        ensures
            tag == (Tag { idx: offset, ver: version }),
    {
        Tag { idx: offset, ver: version }
    }

    /// The offset of the slot.
    pub fn offset(&self) -> (offset: usize)
        ensures
            offset == self.idx,
    {
        self.idx
    }

    /// The version of the slot.
    pub fn version(&self) -> (version: u64)
        ensures
            version == self.ver,
    {
        self.ver
    }

    /// Reads a key from its text, `<offset>/<version>`: `Ok` for the one
    /// text of each key, `Err` for any other string.
    pub fn parse(s: &str) -> (res: Result<Tag, TagParseError>)
        ensures
            match res {
                Ok(tag) => text::parsed(s.spec_bytes()) == Some(tag),
                Err(_) => text::parsed(s.spec_bytes()) is None,
            },
    {
        match text::read_tag(s.as_bytes()) {
            Ok(tag) => Ok(tag),
            Err(_) => Err(TagParseError),
        }
    }

    /// The text of the key, `<offset>/<version>`.
    pub fn to_string(&self) -> (s: String)
        ensures
            vstd::utf8::encode_utf8(s@) == text::text(*self),
    {
        let bytes = text::write_tag(*self);
        proof {
            text::lemma_text_ascii(*self);
        }
        backing::string_from_ascii(bytes)
    }
}

impl FromStr for Tag {
    type Err = TagParseError;

    fn from_str(s: &str) -> (res: Result<Tag, TagParseError>)
        ensures
            match res {
                Ok(tag) => text::parsed(s.spec_bytes()) == Some(tag),
                Err(_) => text::parsed(s.spec_bytes()) is None,
            },
    {
        Tag::parse(s)
    }
}

} // verus!
