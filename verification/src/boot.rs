//! What the boot sequence hands around: the arguments of the program that is started, and the
//! reason a component gave for not coming up.

use vstd::prelude::*;
use vstd::string::StringExecFns;

verus! {

/// The reason a component gave for not coming up.
#[derive(Debug, Copy, Clone)]
pub struct InitError(&'static str);

/// What bringing up a component comes to.
pub type InitResult<T> = Result<T, InitError>;

impl InitError {
    /// The error with the reason `reason`.
    pub fn new(reason: &'static str) -> (e: InitError)
        ensures
            e.reason()@ == reason@,
    {
        InitError(reason)
    }

    /// The reason.
    pub closed spec fn reason(&self) -> &'static str {
        self.0
    }

    /// The reason.
    pub fn message(&self) -> (r: &'static str)
        ensures
            r@ == self.reason()@,
    {
        self.0
    }
}

/// The mathematical value of [`Arguments`].
pub struct ArgumentsView {
    pub parent: Seq<char>,
    pub args: Option<Seq<Seq<char>>>,
}

/// The arguments a program is started with, and who started it.
pub struct Arguments {
    parent: String,
    args: Option<Vec<String>>,
}

impl View for Arguments {
    type V = ArgumentsView;

    closed spec fn view(&self) -> ArgumentsView {
        ArgumentsView {
            parent: self.parent@,
            args: match self.args {
                Some(v) => Some(Seq::new(v@.len(), |i: int| v@[i]@)),
                None => None,
            },
        }
    }
}

impl Arguments {
    /// No arguments, from a parent called "none".
    pub fn empty() -> (a: Arguments)
        ensures
            a@.parent == "none"@,
            a@.args is None,
    {
        Arguments { parent: String::from_str("none"), args: None }
    }

    pub fn new(parent: String, args: Option<Vec<String>>) -> (a: Arguments)
        ensures
            a@.parent == parent@,
            a@.args == match args {
                Some(v) => Some(Seq::new(v@.len(), |i: int| v@[i]@)),
                None => None,
            },
    {
        Arguments { parent, args }
    }

    /// Who started the program.
    pub fn parent(&self) -> (r: &String)
        ensures
            r@ == self@.parent,
    {
        &self.parent
    }

    /// The arguments, if any were given.
    pub fn args(&self) -> (r: &Option<Vec<String>>)
        ensures
            r is Some <==> self@.args is Some,
            r matches Some(v) ==> self@.args == Some(Seq::new(v@.len(), |i: int| v@[i]@)),
    {
        &self.args
    }

    /// The number of arguments; 0 when none were given.
    pub fn arg_count(&self) -> (n: usize)
        ensures
            n == match self@.args {
                Some(v) => v.len(),
                None => 0,
            },
    {
        match &self.args {
            Some(v) => v.len(),
            None => 0,
        }
    }
}

} // verus!
