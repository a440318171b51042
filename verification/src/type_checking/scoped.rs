//! The variables that are visible at a place in a method body, as a stack
//! of scopes.
use super::type_system::{CheckedType, MethodParamDef};
use crate::strtab::Symbol;
use vstd::prelude::*;

verus! {

/// What a name in a method body stands for: a local variable with its
/// type, or a parameter of the method.
pub enum VarDef {
    Local { name: Symbol, ty: CheckedType },
    Param(MethodParamDef),
}

/// The first entry of `scope` at or behind `from` that defines `name`.
pub open spec fn find_in(scope: Seq<(Symbol, VarDef)>, name: Symbol, from: int) -> Option<VarDef>
    decreases scope.len() - from,
{
    if from >= scope.len() {
        None
    } else if scope[from].0 == name {
        Some(scope[from].1)
    } else {
        find_in(scope, name, from + 1)
    }
}

/// What `name` stands for in the innermost of the first `upto` scopes
/// that defines it.
pub open spec fn lookup_in(scopes: Seq<Seq<(Symbol, VarDef)>>, name: Symbol, upto: int) -> Option<
    VarDef,
>
    decreases upto,
{
    if upto <= 0 {
        None
    } else {
        match find_in(scopes[upto - 1], name, 0) {
            Some(d) => Some(d),
            None => lookup_in(scopes, name, upto - 1),
        }
    }
}

/// What `name` stands for in `scopes`.
pub open spec fn spec_lookup(scopes: Seq<Seq<(Symbol, VarDef)>>, name: Symbol) -> Option<VarDef> {
    lookup_in(scopes, name, scopes.len() as int)
}

/// `scopes` with `name` defined as `def` in the innermost scope.
pub open spec fn spec_define(scopes: Seq<Seq<(Symbol, VarDef)>>, name: Symbol, def: VarDef) -> Seq<
    Seq<(Symbol, VarDef)>,
> {
    scopes.update(scopes.len() - 1, scopes.last().push((name, def)))
}

/// A stack of scopes, the innermost last. A name can be defined once in
/// all the scopes that are open.
pub struct Scoped {
    scopes: Vec<Vec<(Symbol, VarDef)>>,
}

/// The scopes as sequences.
pub open spec fn scope_views(scopes: Seq<Vec<(Symbol, VarDef)>>) -> Seq<Seq<(Symbol, VarDef)>> {
    Seq::new(scopes.len(), |i: int| scopes[i]@)
}

impl View for Scoped {
    type V = Seq<Seq<(Symbol, VarDef)>>;

    closed spec fn view(&self) -> Seq<Seq<(Symbol, VarDef)>> {
        scope_views(self.scopes@)
    }
}

impl Scoped {
    /// The root scope alone, with nothing defined in it.
    pub fn new() -> (s: Scoped)
        ensures
            s@ == seq![Seq::<(Symbol, VarDef)>::empty()],
    {
        let mut scopes: Vec<Vec<(Symbol, VarDef)>> = Vec::new();
        scopes.push(Vec::new());
        let s = Scoped { scopes };
        assert(s@ =~= seq![Seq::<(Symbol, VarDef)>::empty()]);
        s
    }

    /// Opens a scope inside the innermost one.
    pub fn enter_scope(&mut self)
        ensures
            final(self)@ == old(self)@.push(Seq::empty()),
    {
        self.scopes.push(Vec::new());
        assert(self@ =~= old(self)@.push(Seq::empty()));
    }

    /// Closes the innermost scope. The root scope cannot be closed.
    pub fn leave_scope(&mut self) -> (r: Result<(), ()>)
        ensures
            old(self)@.len() > 1 ==> r is Ok && final(self)@ == old(self)@.drop_last(),
            old(self)@.len() <= 1 ==> r is Err && final(self)@ == old(self)@,
    {
        if self.scopes.len() > 1 {
            self.scopes.pop();
            assert(self@ =~= old(self)@.drop_last());
            Ok(())
        } else {
            Err(())
        }
    }

    /// Whether `name` is defined in a scope that is open.
    pub fn is_defined(&self, name: Symbol) -> (r: bool)
        ensures
            r == (spec_lookup(self@, name) is Some),
    {
        self.lookup(name).is_some()
    }

    /// What `name` stands for.
    pub fn lookup(&self, name: Symbol) -> (r: Option<&VarDef>)
        ensures
            r matches Some(d) ==> spec_lookup(self@, name) == Some(*d),
            r is None ==> spec_lookup(self@, name) is None,
    {
        let mut s: usize = self.scopes.len();
        while s > 0
            invariant
                s <= self.scopes@.len(),
                self@ == scope_views(self.scopes@),
                spec_lookup(self@, name) == lookup_in(self@, name, s as int),
            decreases s,
        {
            let scope = &self.scopes[s - 1];
            let mut i: usize = 0;
            while i < scope.len()
                invariant
                    0 < s <= self.scopes@.len(),
                    self@ == scope_views(self.scopes@),
                    spec_lookup(self@, name) == lookup_in(self@, name, s as int),
                    scope@ == self@[s - 1],
                    i <= scope@.len(),
                    find_in(scope@, name, 0) == find_in(scope@, name, i as int),
                decreases scope@.len() - i,
            {
                if scope[i].0.id == name.id {
                    return Some(&scope[i].1);
                }
                i += 1;
            }
            s -= 1;
        }
        None
    }

    /// Defines `name` in the innermost scope, unless it is defined in a
    /// scope that is open.
    pub fn define(&mut self, name: Symbol, def: VarDef) -> (r: Result<(), ()>)
        requires
            old(self)@.len() > 0,
        ensures
            spec_lookup(old(self)@, name) is Some ==> r is Err && final(self)@ == old(self)@,
            spec_lookup(old(self)@, name) is None ==> r is Ok && final(self)@ == spec_define(
                old(self)@,
                name,
                def,
            ),
    {
        if self.is_defined(name) {
            return Err(());
        }
        let last = self.scopes.len() - 1;
        self.scopes[last].push((name, def));
        assert(self@ =~= spec_define(old(self)@, name, def));
        Ok(())
    }
}

} // verus!
