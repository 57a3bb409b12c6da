use crate::ir::Variable;
use vstd::prelude::*;

verus! {

/// The most recent binding of `name` in a list of bindings, if any.
pub open spec fn latest_binding(bindings: Seq<(String, Variable)>, name: Seq<char>) -> Option<
    Variable,
>
    decreases bindings.len(),
{
    if bindings.len() == 0 {
        None
    } else if bindings.last().0@ == name {
        Some(bindings.last().1)
    } else {
        latest_binding(bindings.drop_last(), name)
    }
}

/// The variables that are visible under their names in one block.
pub struct Scope {
    names: Vec<(String, Variable)>,
}

impl View for Scope {
    type V = Map<Seq<char>, Variable>;

    /// Each bound name with the variable it was bound to last.
    closed spec fn view(&self) -> Map<Seq<char>, Variable> {
        Map::new(
            |name: Seq<char>| latest_binding(self.names@, name) is Some,
            |name: Seq<char>| latest_binding(self.names@, name)->0,
        )
    }
}

impl Scope {
    /// A scope that binds no name.
    pub fn new() -> (scope: Scope)
        ensures
            scope@ == Map::<Seq<char>, Variable>::empty(),
    {
        let scope = Scope { names: Vec::new() };
        assert(scope@ =~= Map::<Seq<char>, Variable>::empty());
        scope
    }

    /// The variable bound to `name` in this scope.
    pub fn get(&self, name: &str) -> (found: Option<Variable>)
        ensures
            found == (if self@.contains_key(name@) {
                Some(self@[name@])
            } else {
                None
            }),
    {
        let key = name.to_owned();
        let mut i: usize = self.names.len();
        assert(self.names@.take(i as int) =~= self.names@);
        while i > 0
            invariant
                i <= self.names.len(),
                key@ == name@,
                latest_binding(self.names@, name@) == latest_binding(
                    self.names@.take(i as int),
                    name@,
                ),
            decreases i,
        {
            let ghost head = self.names@.take(i as int);
            assert(head.drop_last() =~= self.names@.take(i - 1));
            i -= 1;
            if self.names[i].0 == key {
                return Some(self.names[i].1);
            }
        }
        None
    }

    /// Binds `name` to `variable`, replacing any earlier binding of `name`.
    pub fn insert(&mut self, name: String, variable: Variable)
        ensures
            final(self)@ == old(self)@.insert(name@, variable),
    {
        let ghost before = self.names@;
        self.names.push((name, variable));
        proof {
            assert(self.names@.drop_last() =~= before);
            assert(self@ =~= old(self)@.insert(name@, variable));
        }
    }
}

/// The variable that `name` resolves to in a stack of scopes: the binding
/// in the innermost scope that has one. The last scope is the innermost.
pub open spec fn resolve(scopes: Seq<Map<Seq<char>, Variable>>, name: Seq<char>) -> Option<
    Variable,
>
    decreases scopes.len(),
{
    if scopes.len() == 0 {
        None
    } else if scopes.last().contains_key(name) {
        Some(scopes.last()[name])
    } else {
        resolve(scopes.drop_last(), name)
    }
}

/// The scopes that are open at one point of a function, outermost first.
pub struct ScopeChain {
    scopes: Vec<Scope>,
}

impl View for ScopeChain {
    type V = Seq<Map<Seq<char>, Variable>>;

    closed spec fn view(&self) -> Seq<Map<Seq<char>, Variable>> {
        Seq::new(self.scopes.len() as nat, |i: int| self.scopes[i]@)
    }
}

impl ScopeChain {
    /// A chain that holds the empty function-entry scope.
    pub fn new() -> (chain: ScopeChain)
        ensures
            chain@ == seq![Map::<Seq<char>, Variable>::empty()],
    {
        let mut scopes: Vec<Scope> = Vec::new();
        scopes.push(Scope::new());
        let chain = ScopeChain { scopes };
        assert(chain@ =~= seq![Map::<Seq<char>, Variable>::empty()]);
        chain
    }

    /// The number of open scopes.
    pub fn depth(&self) -> (depth: usize)
        ensures
            depth == self@.len(),
    {
        self.scopes.len()
    }

    /// Opens a new innermost scope.
    pub fn enter(&mut self)
        ensures
            final(self)@ == old(self)@.push(Map::<Seq<char>, Variable>::empty()),
    {
        self.scopes.push(Scope::new());
        assert(self@ =~= old(self)@.push(Map::<Seq<char>, Variable>::empty()));
    }

    /// Closes the innermost scope.
    pub fn exit(&mut self)
        requires
            old(self)@.len() > 0,
        ensures
            final(self)@ == old(self)@.drop_last(),
    {
        self.scopes.pop();
        assert(self@ =~= old(self)@.drop_last());
    }

    /// Binds `name` to `variable` in the innermost scope.
    pub fn bind(&mut self, name: String, variable: Variable)
        requires
            old(self)@.len() > 0,
        ensures
            final(self)@ == old(self)@.update(
                old(self)@.len() - 1,
                old(self)@.last().insert(name@, variable),
            ),
    {
        let mut scope = self.scopes.pop().unwrap();
        scope.insert(name, variable);
        self.scopes.push(scope);
        assert(self@ =~= old(self)@.update(
            old(self)@.len() - 1,
            old(self)@.last().insert(name@, variable),
        ));
    }

    /// Resolves `name`, searching from the innermost scope outwards.
    pub fn lookup(&self, name: &str) -> (found: Option<Variable>)
        ensures
            found == resolve(self@, name@),
    {
        let mut i: usize = self.scopes.len();
        assert(self@.take(i as int) =~= self@);
        while i > 0
            invariant
                i <= self.scopes.len(),
                resolve(self@, name@) == resolve(self@.take(i as int), name@),
            decreases i,
        {
            let ghost head = self@.take(i as int);
            assert(head.drop_last() =~= self@.take(i - 1));
            i -= 1;
            match self.scopes[i].get(name) {
                Some(variable) => {
                    return Some(variable);
                },
                None => {},
            }
        }
        None
    }
}

} // verus!
