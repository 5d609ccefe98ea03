//! A stack calculator over integers and booleans, with explicit error
//! reporting for underflow, type mismatches and the quit request.

use rand::Rng;
use vstd::prelude::*;

verus! {

/// An element of the stack. May be either integer or boolean.
#[derive(Eq, PartialEq, Ord, PartialOrd, Debug, Structural)]
pub enum Elt {
    Int(i32),
    Bool(bool),
}

/// An RPN calculator error.
#[derive(Debug)]
pub enum Error {
    /// Tried to pop from an empty stack.
    Underflow,
    /// Tried to operate on invalid types (e.g. 4 + true)
    Type,
    /// Unable to parse the input.
    Syntax,
    /// Some IO error occurred.
    IO(std::io::Error),
    /// The user quit the program (with `quit`).
    Quit,
}

#[verifier::external_type_specification]
#[verifier::external_body]
pub struct ExIoError(std::io::Error);

/// Types of RPN calculator operations.
#[derive(Debug)]
pub enum Op {
    /// Adds two numbers: pop x, pop y, push x + y.
    Add,
    /// Checks equality of two values: pop x, pop y, push x == y.
    Eq,
    /// Negates a value: pop x, push ~x.
    Neg,
    /// Swaps two values: pop x, pop y, push x, push y.
    Swap,
    /// Computes a random number: pop x, push random number in [0, x).
    Rand,
    /// Quit the calculator.
    Quit,
}

/// The calculator stack; the last element of the vector is the top.
#[derive(Debug)]
pub struct Stack {
    stack: Vec<Elt>,
}

pub type Result<T> = std::result::Result<T, Error>;

impl View for Stack {
    type V = Seq<Elt>;

    closed spec fn view(&self) -> Seq<Elt> {
        self.stack@
    }
}

/// Relies on rand's `thread_rng().gen_range(0..bound)`: a uniformly random
/// value in `[0, bound)`; the range is nonempty, so it does not panic.
#[verifier::external_body]
fn rand_below(bound: i32) -> (r: i32)
    requires
        bound > 0,
    ensures
        0 <= r < bound,
{
    rand::thread_rng().gen_range(0..bound)
}

impl Stack {
    /// Creates a new Stack
    pub fn new() -> (s: Stack)
        ensures
            s@ == Seq::<Elt>::empty(),
    {
        Stack { stack: vec![] }
    }

    /// Pushes a value onto the stack.
    pub fn push(&mut self, val: Elt) -> (r: Result<()>)
        ensures
            r is Ok,
            final(self)@ == old(self)@.push(val),
    {
        self.stack.push(val);
        Ok(())
    }

    /// Tries to pop a value off of the stack.
    pub fn pop(&mut self) -> (r: Result<Elt>)
        ensures
            old(self)@.len() == 0 ==> r is Err && r->Err_0 is Underflow && final(self)@ == old(self)@,
            old(self)@.len() > 0 ==> r is Ok && r->Ok_0 == old(self)@.last() && final(self)@ == old(
                self,
            )@.drop_last(),
    {
        match self.stack.pop() {
            Some(v) => Ok(v),
            None => Err(Error::Underflow),
        }
    }

    /// Tries to read the last value of the stack
    pub fn last(&mut self) -> (r: Result<&Elt>)
        ensures
            final(self)@ == old(self)@,
            old(self)@.len() == 0 ==> r is Err && r->Err_0 is Underflow,
            old(self)@.len() > 0 ==> r is Ok && *r->Ok_0 == old(self)@.last(),
    {
        if self.stack.len() > 0 {
            Ok(&self.stack[self.stack.len() - 1])
        } else {
            Err(Error::Underflow)
        }
    }

    /// Tries to evaluate an operator using values on the stack.
    ///
    /// Operands are popped before their kinds are checked, so a failed
    /// evaluation leaves the stack with those operands removed, exactly as
    /// the sequence of pops performed.
    pub fn eval(&mut self, op: Op) -> (r: Result<()>)
        requires
            ({
                let s = old(self)@;
                match op {
                    Op::Add => s.len() >= 2 && s[s.len() - 1] is Int && s[s.len() - 2] is Int
                        ==> i32::MIN <= s[s.len() - 2]->Int_0 + s[s.len() - 1]->Int_0 <= i32::MAX,
                    Op::Neg => s.len() >= 1 && s.last() is Int ==> s.last()->Int_0 != i32::MIN,
                    Op::Rand => s.len() >= 1 && s.last() is Int ==> s.last()->Int_0 > 0,
                    _ => true,
                }
            }),
        ensures
            ({
                let s = old(self)@;
                match op {
                    Op::Add => if s.len() == 0 {
                        r is Err && r->Err_0 is Underflow && final(self)@ == s
                    } else if s.len() == 1 {
                        r is Err && r->Err_0 is Underflow && final(self)@ == s.drop_last()
                    } else {
                        let y = s[s.len() - 1];
                        let x = s[s.len() - 2];
                        if x is Int && y is Int {
                            r is Ok && final(self)@ == s.take(s.len() - 2).push(
                                Elt::Int((x->Int_0 + y->Int_0) as i32),
                            )
                        } else {
                            r is Err && r->Err_0 is Type && final(self)@ == s.take(s.len() - 2)
                        }
                    },
                    Op::Eq => if s.len() == 0 {
                        r is Err && r->Err_0 is Underflow && final(self)@ == s
                    } else if s.len() == 1 {
                        r is Err && r->Err_0 is Underflow && final(self)@ == s.drop_last()
                    } else {
                        let y = s[s.len() - 1];
                        let x = s[s.len() - 2];
                        r is Ok && final(self)@ == s.take(s.len() - 2).push(Elt::Bool(x == y))
                    },
                    Op::Neg => if s.len() == 0 {
                        r is Err && r->Err_0 is Underflow && final(self)@ == s
                    } else {
                        let top = s.last();
                        r is Ok && final(self)@ == s.drop_last().push(
                            match top {
                                Elt::Int(v) => Elt::Int((-v) as i32),
                                Elt::Bool(b) => Elt::Bool(!b),
                            },
                        )
                    },
                    Op::Swap => if s.len() == 0 {
                        r is Err && r->Err_0 is Underflow && final(self)@ == s
                    } else if s.len() == 1 {
                        r is Err && r->Err_0 is Underflow && final(self)@ == s.drop_last()
                    } else {
                        let y = s[s.len() - 1];
                        let x = s[s.len() - 2];
                        r is Ok && final(self)@ == s.take(s.len() - 2).push(y).push(x)
                    },
                    Op::Rand => if s.len() == 0 {
                        r is Err && r->Err_0 is Underflow && final(self)@ == s
                    } else {
                        let top = s.last();
                        match top {
                            Elt::Int(v) => r is Ok && exists|k: i32|
                                0 <= k < v && final(self)@ == s.drop_last().push(Elt::Int(k)),
                            Elt::Bool(b) => r is Err && r->Err_0 is Type && final(self)@ == s.drop_last(),
                        }
                    },
                    Op::Quit => r is Err && r->Err_0 is Quit && final(self)@ == s,
                }
            }),
    {
        match op {
            Op::Add => {
                let y = self.pop()?;
                let x = self.pop()?;
                match (x, y) {
                    (Elt::Int(x), Elt::Int(y)) => self.push(Elt::Int(x + y)),
                    (_, _) => Err(Error::Type),
                }
            },
            Op::Neg => {
                match self.pop()? {
                    Elt::Int(x) => self.push(Elt::Int(-x)),
                    Elt::Bool(x) => self.push(Elt::Bool(!x)),
                }
            },
            Op::Eq => {
                let y = self.pop()?;
                let x = self.pop()?;
                self.push(Elt::Bool(x == y))
            },
            Op::Swap => {
                let y = self.pop()?;
                let x = self.pop()?;
                let r1 = self.push(y);
                if r1.is_err() {
                    return r1;
                }
                let r2 = self.push(x);
                if r2.is_err() {
                    return r2;
                }
                Ok(())
            },
            Op::Rand => {
                match self.pop()? {
                    Elt::Int(x) => self.push(Elt::Int(rand_below(x))),
                    Elt::Bool(_) => Err(Error::Type),
                }
            },
            Op::Quit => Err(Error::Quit),
        }
    }
}

} // verus!
