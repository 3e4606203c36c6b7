//! The error that every fallible operation of the library reports.

use std::borrow::Cow;
use vstd::prelude::*;

verus! {

/// A failure together with the message that describes it.
#[derive(Debug, PartialEq)]
pub struct JustTextError<'a> {
    message: Cow<'a, str>,
}

impl<'a> View for JustTextError<'a> {
    type V = Seq<char>;

    /// The text of the message.
    closed spec fn view(&self) -> Seq<char> {
        self.message@
    }
}

impl<'a> JustTextError<'a> {
    /// An error that carries `message`.
    pub fn new(message: &'a str) -> (error: Self)
        ensures
            error@ == message@,
    {
        JustTextError { message: Cow::Borrowed(message) }
    }

    /// An error that carries and owns `message`.
    pub fn from_string(message: String) -> (error: Self)
        ensures
            error@ == message@,
    {
        JustTextError { message: Cow::Owned(message) }
    }

    /// The message, as an owned string.
    pub fn to_string(&self) -> (text: String)
        ensures
            text@ == self@,
    {
        match &self.message {
            Cow::Borrowed(text) => (*text).to_owned(),
            Cow::Owned(text) => text.clone(),
        }
    }
}

} // verus!
