//! Names that compare without regard to ASCII letter case and keep the
//! spelling they were given.

use crate::text::eq_ignore_case;
use crate::text::folded;
use crate::text::lower_byte;
use std::borrow::Borrow;
use std::hash::Hash;
use std::hash::Hasher;
use vstd::prelude::*;
use vstd::std_specs::cmp::PartialEqSpecImpl;
use vstd::std_specs::convert::FromSpecImpl;
use vstd::utf8::encode_utf8;

verus! {

/// What two spellings of one name have in common: the bytes of the name with
/// every ASCII capital made small.
pub open spec fn name_key(name: Seq<char>) -> Seq<u8> {
    folded(encode_utf8(name))
}

/// The characters of a string slice.
pub open spec fn spelling(s: &str) -> Seq<char> {
    s@
}

/// `Hasher::write_u8`: feeds one byte to a hasher. Nothing is claimed of the
/// state it leaves.
#[verifier::external_body]
fn feed<H: Hasher>(state: &mut H, byte: u8) {
    state.write_u8(byte)
}

/// Feeds the folded bytes of `name` to a hasher, one by one.
fn hash_folded<H: Hasher>(name: &str, state: &mut H) {
    let bytes = name.as_bytes();
    let mut i: usize = 0;
    while i < bytes.len()
        invariant
            i <= bytes.len(),
        decreases bytes.len() - i,
    {
        feed(state, lower_byte(bytes[i]));
        i += 1;
    }
}

/// Whether two names are the same but for ASCII letter case.
pub fn same_name(a: &str, b: &str) -> (r: bool)
    ensures
        r == (name_key(a@) == name_key(b@)),
{
    eq_ignore_case(a.as_bytes(), b.as_bytes())
}

/// An owned name: equal to every other spelling of itself in ASCII letter
/// case, shown as it was written.
#[derive(Debug)]
pub struct CiString(String);

impl View for CiString {
    type V = Seq<char>;

    closed spec fn view(&self) -> Seq<char> {
        self.0@
    }
}

impl CiString {
    /// The key under which the name is compared and hashed.
    pub open spec fn key(&self) -> Seq<u8> {
        name_key(self@)
    }

    /// The name as it was written.
    pub fn as_str(&self) -> (r: &str)
        ensures
            r@ == self@,
    {
        self.0.as_str()
    }

    /// Gives up the wrapper and returns the name as it was written.
    pub fn into_string(self) -> (r: String)
        ensures
            r@ == self@,
    {
        self.0
    }

    /// The name as it was written, in a string of its own.
    pub fn to_string(&self) -> (r: String)
        ensures
            r@ == self@,
    {
        self.0.clone()
    }
}

impl Clone for CiString {
    fn clone(&self) -> (r: Self)
        ensures
            r@ == self@,
    {
        CiString(self.0.clone())
    }
}

impl From<String> for CiString {
    fn from(s: String) -> (r: Self)
        ensures
            r@ == s@,
    {
        CiString(s)
    }
}

impl FromSpecImpl<String> for CiString {
    open spec fn obeys_from_spec() -> bool {
        true
    }

    closed spec fn from_spec(s: String) -> Self {
        CiString(s)
    }
}

impl<'a> From<&'a str> for CiString {
    fn from(s: &'a str) -> (r: Self)
        ensures
            r@ == s@,
    {
        CiString(s.to_owned())
    }
}

impl<'a> FromSpecImpl<&'a str> for CiString {
    open spec fn obeys_from_spec() -> bool {
        false
    }

    closed spec fn from_spec(s: &'a str) -> Self {
        arbitrary()
    }
}

impl PartialEq for CiString {
    fn eq(&self, other: &Self) -> (r: bool) {
        same_name(self.0.as_str(), other.0.as_str())
    }
}

impl PartialEqSpecImpl for CiString {
    open spec fn obeys_eq_spec() -> bool {
        true
    }

    open spec fn eq_spec(&self, other: &Self) -> bool {
        self.key() == other.key()
    }
}

impl Eq for CiString {

}

impl Hash for CiString {
    fn hash<H: Hasher>(&self, state: &mut H) {
        hash_folded(self.0.as_str(), state)
    }
}

impl Borrow<str> for CiString {
    /// The name as it was written.
    fn borrow(&self) -> (r: &str)
        ensures
            spelling(r) == self@,
    {
        self.0.as_str()
    }
}

impl AsRef<str> for CiString {
    /// The name as it was written.
    fn as_ref(&self) -> (r: &str)
        ensures
            r@ == self@,
    {
        self.0.as_str()
    }
}

/// A borrowed name: compares as [`CiString`] does, without owning the text.
#[derive(Debug, Clone, Copy)]
pub struct CiStr<'a>(&'a str);

impl<'a> View for CiStr<'a> {
    type V = Seq<char>;

    closed spec fn view(&self) -> Seq<char> {
        self.0@
    }
}

impl<'a> CiStr<'a> {
    /// Wraps a string slice.
    pub fn new(s: &'a str) -> (r: Self)
        ensures
            r@ == s@,
    {
        CiStr(s)
    }

    /// The key under which the name is compared and hashed.
    pub open spec fn key(&self) -> Seq<u8> {
        name_key(self@)
    }

    /// The name as it was written.
    pub fn as_str(&self) -> (r: &'a str)
        ensures
            r@ == self@,
    {
        self.0
    }

    /// The name as it was written, in a string of its own.
    pub fn to_string(&self) -> (r: String)
        ensures
            r@ == self@,
    {
        self.0.to_owned()
    }
}

impl<'a> PartialEq for CiStr<'a> {
    fn eq(&self, other: &Self) -> (r: bool) {
        same_name(self.0, other.0)
    }
}

impl<'a> PartialEqSpecImpl for CiStr<'a> {
    open spec fn obeys_eq_spec() -> bool {
        true
    }

    open spec fn eq_spec(&self, other: &Self) -> bool {
        self.key() == other.key()
    }
}

impl<'a> Eq for CiStr<'a> {

}

impl<'a> Hash for CiStr<'a> {
    fn hash<H: Hasher>(&self, state: &mut H) {
        hash_folded(self.0, state)
    }
}

impl<'a> Borrow<str> for CiStr<'a> {
    /// The name as it was written.
    fn borrow(&self) -> (r: &str)
        ensures
            spelling(r) == self@,
    {
        self.0
    }
}

impl<'a> AsRef<str> for CiStr<'a> {
    /// The name as it was written.
    fn as_ref(&self) -> (r: &str)
        ensures
            r@ == self@,
    {
        self.0
    }
}

} // verus!
