//! The contents of the small files the kernel exposes its state through.
//!
//! A file that could not be read is `None`. White space around the contents
//! never counts.

use crate::text::{parse_number, trim};
use vstd::prelude::*;

verus! {

/// The number that a file holds.
pub open spec fn file_number(contents: Option<String>) -> Option<nat> {
    match contents {
        Some(t) => crate::text::number(crate::text::trimmed(t@), u64::MAX as nat),
        None => None,
    }
}

/// The number that a file holds.
pub fn read_num(contents: &Option<String>) -> (r: Option<u64>)
    ensures
        match r {
            Some(n) => file_number(*contents) == Some(n as nat),
            None => file_number(*contents) is None,
        },
{
    match contents {
        Some(t) => parse_number(trim(t.as_str()), u64::MAX),
        None => None,
    }
}

/// The text that a file holds, or `other` when it could not be read.
pub open spec fn file_text_or(contents: Option<String>, other: Seq<char>) -> Seq<char> {
    match contents {
        Some(t) => crate::text::trimmed(t@),
        None => other,
    }
}

/// The text that a file holds, or `other` when it could not be read.
pub fn read_text_or(contents: &Option<String>, other: &str) -> (r: String)
    ensures
        r@ == file_text_or(*contents, other@),
{
    match contents {
        Some(t) => trim(t.as_str()).to_owned(),
        None => other.to_owned(),
    }
}

/// The text that a file holds, empty when it could not be read.
pub open spec fn file_text(contents: Option<String>) -> Seq<char> {
    file_text_or(contents, Seq::empty())
}

/// The text that a file holds, empty when it could not be read.
pub fn text_or_empty(contents: &Option<String>) -> (r: String)
    ensures
        r@ == file_text(*contents),
{
    match contents {
        Some(t) => trim(t.as_str()).to_owned(),
        None => String::new(),
    }
}

} // verus!
