use vstd::prelude::*;
use std::rc::Rc;

use crate::callable::Callable;
use crate::environment::Environment;
use crate::interpreter::stmt_ok;
use crate::stmt::Stmt;

verus! {

/// `Rc::clone` (std): makes a second pointer to the same allocation, so the
/// value it points to is the same.
#[verifier::external_body]
pub(crate) fn rc_clone<T>(rc: &Rc<T>) -> (res: Rc<T>)
    ensures
        res == *rc,
{
    Rc::clone(rc)
}

/// The declaration is one a call handles: a function's body is one the
/// interpreter handles; any other declaration makes a call fail with an
/// error.
pub open spec fn declaration_fits(declaration: Stmt) -> bool {
    stmt_ok(declaration)
}

/// A function written in the language: its name, its declaration and the
/// environment it closes over.
pub struct LoxFunction {
    pub(crate) name: String,
    pub(crate) declaration: Rc<Stmt>,
    pub(crate) closure: Rc<Environment>,
}

impl LoxFunction {
    #[verifier::type_invariant]
    pub(crate) open spec fn fits(self) -> bool {
        &&& declaration_fits(*self.declaration)
        &&& self.closure.wf()
    }

    /// The function's name.
    pub closed spec fn name_view(&self) -> Seq<char> {
        self.name@
    }

    /// The function's declaration.
    pub closed spec fn declaration_view(&self) -> Stmt {
        *self.declaration
    }

    /// The environment the function closes over.
    pub closed spec fn closure_view(&self) -> Environment {
        *self.closure
    }

    /// The views name the fields.
    pub(crate) proof fn lemma_views(&self)
        ensures
            self.name_view() == self.name@,
            self.declaration_view() == *self.declaration,
            self.closure_view() == *self.closure,
    {
    }

    /// A function of `declaration` called `name` that closes over `closure`.
    pub fn new(name: String, declaration: Stmt, closure: Environment) -> (r: Self)
        requires
            declaration_fits(declaration),
            closure.wf(),
        ensures
            r.name_view() == name@,
            r.declaration_view() == declaration,
            r.closure_view() == closure,
    {
        Self { name, declaration: Rc::new(declaration), closure: Rc::new(closure) }
    }

    /// The function's name.
    pub fn name(&self) -> (r: &String)
        ensures
            r@ == self.name_view(),
    {
        &self.name
    }

    /// The environment the function closes over.
    pub fn closure(&self) -> (r: &Environment)
        ensures
            *r == self.closure_view(),
            r.wf(),
    {
        proof {
            use_type_invariant(self);
        }
        &*self.closure
    }

    /// The function's declaration.
    pub fn declaration(&self) -> (r: &Stmt)
        ensures
            *r == self.declaration_view(),
    {
        &*self.declaration
    }
}

impl Callable for LoxFunction {
    /// The number of parameters the function declares (truncated to 8 bits);
    /// 0 for a declaration that is no function's.
    fn arity(&self) -> (r: u8)
        ensures
            r == arity_of(self.declaration_view()),
    {
        match &*self.declaration {
            Stmt::Function(_name, params, _body) => params.len() as u8,
            _ => 0,
        }
    }
}

/// The arity of a declaration, as `LoxFunction::arity` gives it.
pub open spec fn arity_of(declaration: Stmt) -> u8 {
    match declaration {
        Stmt::Function(_, params, _) => params@.len() as u8,
        _ => 0,
    }
}

impl Clone for LoxFunction {
    fn clone(&self) -> (r: Self)
        ensures
            r == *self,
    {
        proof {
            use_type_invariant(self);
        }
        LoxFunction {
            name: self.name.clone(),
            declaration: rc_clone(&self.declaration),
            closure: rc_clone(&self.closure),
        }
    }
}

} // verus!
