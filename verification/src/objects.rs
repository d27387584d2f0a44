//! The object model: a closed set of runtime value kinds unified behind one
//! enum, with exhaustive matching at every consumption site.

use vstd::prelude::*;

verus! {

use std::rc::Rc;
use crate::interpreter::Scope;

/// A callable command: consumes the text of one input and the mutable scope,
/// producing a new value. The shell installs implementations of this trait
/// into the initial scope before a session starts; a command may insert or
/// replace bindings as a side effect.
pub trait Command: Sized {
    fn call(&self, input: String, scope: &mut Scope<Self>) -> Object<Self>;
}

/// A runtime value: an invocable command, the unit value, or a wrapped
/// diagnostic. An `Error` is a terminal value carrying its rendered message,
/// not an exception.
pub enum Object<C> {
    Command(Rc<C>),
    Nothing,
    Error(String),
}

/// The mathematical content of an [`Object`]: the error message as a
/// character sequence, the command implementation as itself.
pub ghost enum ObjectV<C> {
    Command(Rc<C>),
    Nothing,
    Error(Seq<char>),
}

impl<C> View for Object<C> {
    type V = ObjectV<C>;

    open spec fn view(&self) -> ObjectV<C> {
        match self {
            Object::Command(rc) => ObjectV::Command(*rc),
            Object::Nothing => ObjectV::Nothing,
            Object::Error(m) => ObjectV::Error(m@),
        }
    }
}

impl<C> Clone for Object<C> {
    fn clone(&self) -> (r: Self)
        ensures
            r@ == self@,
    {
        match self {
            Object::Command(rc) => Object::Command(rc.clone()),
            Object::Nothing => Object::Nothing,
            Object::Error(m) => Object::Error(m.clone()),
        }
    }
}

/// The human-readable rendering of a value: fixed placeholders for commands
/// and the unit value, the stored message for an error.
pub open spec fn object_text<C>(v: ObjectV<C>) -> Seq<char> {
    match v {
        ObjectV::Command(_) => "command"@,
        ObjectV::Nothing => "nothing"@,
        ObjectV::Error(m) => m,
    }
}

impl<C> Object<C> {
    /// Renders this value for display.
    pub fn to_string(&self) -> (r: String)
        ensures
            r@ == object_text(self@),
    {
        match self {
            Object::Command(_) => "command".to_owned(),
            Object::Nothing => "nothing".to_owned(),
            Object::Error(m) => m.clone(),
        }
    }
}

} // verus!
