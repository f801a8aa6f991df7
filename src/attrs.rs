//! Typed reads of element attributes. Each converter looks up the last
//! attribute of the given name and converts its text; an absent attribute
//! and one whose text does not convert both give none.
use vstd::prelude::*;
use crate::colour::{Colour, colour_of};
use crate::events::{Attribute, attr_value, get_attr};
use crate::text::{parse_i32, parse_u32, i32_of, u32_of, text_is};

verus! {

pub open spec fn attr_u32(attrs: Seq<Attribute>, name: Seq<char>) -> Option<u32> {
    match attr_value(attrs, name) {
        Some(v) => u32_of(v),
        None => None,
    }
}

pub open spec fn attr_i32(attrs: Seq<Attribute>, name: Seq<char>) -> Option<i32> {
    match attr_value(attrs, name) {
        Some(v) => i32_of(v),
        None => None,
    }
}

pub open spec fn attr_colour(attrs: Seq<Attribute>, name: Seq<char>) -> Option<Colour> {
    match attr_value(attrs, name) {
        Some(v) => colour_of(v),
        None => None,
    }
}

/// A flag written as an integer, set when it is `1`.
pub open spec fn attr_flag(attrs: Seq<Attribute>, name: Seq<char>) -> Option<bool> {
    match attr_i32(attrs, name) {
        Some(v) => Some(v == 1),
        None => None,
    }
}

/// A flag written as `true` or `false`.
pub open spec fn attr_bool(attrs: Seq<Attribute>, name: Seq<char>) -> Option<bool> {
    match attr_value(attrs, name) {
        Some(v) => if v == "true"@ {
            Some(true)
        } else if v == "false"@ {
            Some(false)
        } else {
            None
        },
        None => None,
    }
}

pub fn text_attr(attrs: &Vec<Attribute>, name: &str) -> (r: Option<String>)
    ensures
        match r {
            Some(v) => attr_value(attrs@, name@) == Some(v@),
            None => attr_value(attrs@, name@) is None,
        },
{
    match get_attr(attrs, name) {
        Some(v) => Some(v.clone()),
        None => None,
    }
}

pub fn u32_attr(attrs: &Vec<Attribute>, name: &str) -> (r: Option<u32>)
    ensures
        r == attr_u32(attrs@, name@),
{
    match get_attr(attrs, name) {
        Some(v) => parse_u32(v.as_str()),
        None => None,
    }
}

pub fn i32_attr(attrs: &Vec<Attribute>, name: &str) -> (r: Option<i32>)
    ensures
        r == attr_i32(attrs@, name@),
{
    match get_attr(attrs, name) {
        Some(v) => parse_i32(v.as_str()),
        None => None,
    }
}

pub fn colour_attr(attrs: &Vec<Attribute>, name: &str) -> (r: Option<Colour>)
    ensures
        r == attr_colour(attrs@, name@),
{
    match get_attr(attrs, name) {
        Some(v) => Colour::from_str(v.as_str()),
        None => None,
    }
}

pub fn flag_attr(attrs: &Vec<Attribute>, name: &str) -> (r: Option<bool>)
    ensures
        r == attr_flag(attrs@, name@),
{
    match i32_attr(attrs, name) {
        Some(v) => Some(v == 1),
        None => None,
    }
}

pub fn bool_attr(attrs: &Vec<Attribute>, name: &str) -> (r: Option<bool>)
    ensures
        r == attr_bool(attrs@, name@),
{
    match get_attr(attrs, name) {
        Some(v) => if text_is(v.as_str(), "true") {
            Some(true)
        } else if text_is(v.as_str(), "false") {
            Some(false)
        } else {
            None
        },
        None => None,
    }
}

} // verus!
