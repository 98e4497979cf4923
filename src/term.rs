use vstd::prelude::*;

verus! {

/// A de Bruijn index: the number of binders crossed from a variable occurrence
/// outward to the binder it refers to.
#[derive(Debug, Clone, Copy, PartialEq, Eq, Structural, Hash)]
pub struct Index(pub usize);

/// A program term with binder-relative variables and explicit erasure and
/// boxing markers. A `Reference` names the definition stored under that number
/// in a `Definitions` table.
#[derive(Debug)]
pub enum Term {
    Variable(Index),
    Lambda { body: Box<Term>, erased: bool },
    Apply { function: Box<Term>, argument: Box<Term>, erased: bool },
    Put(Box<Term>),
    Duplicate { expression: Box<Term>, body: Box<Term> },
    Reference(usize),
    Universe,
    Function { argument_type: Box<Term>, return_type: Box<Term>, erased: bool },
    Annotation { checked: bool, expression: Box<Term>, ty: Box<Term> },
    Wrap(Box<Term>),
}

/// Every reference in `t` either names no definition of a table of `len`
/// entries, or names one below `bound`.
pub open spec fn refs_ok(t: Term, len: nat, bound: nat) -> bool
    decreases t,
{
    match t {
        Term::Variable(_) | Term::Universe => true,
        Term::Reference(n) => n >= len || n < bound,
        Term::Lambda { body, .. } => refs_ok(*body, len, bound),
        Term::Apply { function, argument, .. } => refs_ok(*function, len, bound) && refs_ok(
            *argument,
            len,
            bound,
        ),
        Term::Put(x) | Term::Wrap(x) => refs_ok(*x, len, bound),
        Term::Duplicate { expression, body } => refs_ok(*expression, len, bound) && refs_ok(
            *body,
            len,
            bound,
        ),
        Term::Function { argument_type, return_type, .. } => refs_ok(*argument_type, len, bound)
            && refs_ok(*return_type, len, bound),
        Term::Annotation { expression, ty, .. } => refs_ok(*expression, len, bound) && refs_ok(
            *ty,
            len,
            bound,
        ),
    }
}

/// Every reference in `t` names a definition below `bound`.
pub open spec fn refs_below(t: Term, bound: nat) -> bool
    decreases t,
{
    match t {
        Term::Variable(_) | Term::Universe => true,
        Term::Reference(n) => n < bound,
        Term::Lambda { body, .. } => refs_below(*body, bound),
        Term::Apply { function, argument, .. } => refs_below(*function, bound) && refs_below(
            *argument,
            bound,
        ),
        Term::Put(x) | Term::Wrap(x) => refs_below(*x, bound),
        Term::Duplicate { expression, body } => refs_below(*expression, bound) && refs_below(
            *body,
            bound,
        ),
        Term::Function { argument_type, return_type, .. } => refs_below(*argument_type, bound)
            && refs_below(*return_type, bound),
        Term::Annotation { expression, ty, .. } => refs_below(*expression, bound) && refs_below(
            *ty,
            bound,
        ),
    }
}

/// A term whose references all lie below `bound` meets `refs_ok` for any table.
pub proof fn lemma_refs_below_ok(t: Term, len: nat, bound: nat)
    requires
        refs_below(t, bound),
    ensures
        refs_ok(t, len, bound),
    decreases t,
{
    match t {
        Term::Lambda { body, .. } => lemma_refs_below_ok(*body, len, bound),
        Term::Apply { function, argument, .. } => {
            lemma_refs_below_ok(*function, len, bound);
            lemma_refs_below_ok(*argument, len, bound);
        },
        Term::Put(x) | Term::Wrap(x) => lemma_refs_below_ok(*x, len, bound),
        Term::Duplicate { expression, body } => {
            lemma_refs_below_ok(*expression, len, bound);
            lemma_refs_below_ok(*body, len, bound);
        },
        Term::Function { argument_type, return_type, .. } => {
            lemma_refs_below_ok(*argument_type, len, bound);
            lemma_refs_below_ok(*return_type, len, bound);
        },
        Term::Annotation { expression, ty, .. } => {
            lemma_refs_below_ok(*expression, len, bound);
            lemma_refs_below_ok(*ty, len, bound);
        },
        _ => {},
    }
}

/// Every variable of `t` refers to a binder inside `t` or to one of `depth`
/// binders around it.
pub open spec fn scoped(t: Term, depth: int) -> bool
    decreases t,
{
    match t {
        Term::Variable(i) => i.0 < depth,
        Term::Universe | Term::Reference(_) => true,
        Term::Lambda { body, .. } => scoped(*body, depth + 1),
        Term::Apply { function, argument, .. } => scoped(*function, depth) && scoped(
            *argument,
            depth,
        ),
        Term::Put(x) | Term::Wrap(x) => scoped(*x, depth),
        Term::Duplicate { expression, body } => scoped(*expression, depth) && scoped(
            *body,
            depth + 1,
        ),
        Term::Function { argument_type, return_type, .. } => scoped(*argument_type, depth)
            && scoped(*return_type, depth + 1),
        Term::Annotation { expression, ty, .. } => scoped(*expression, depth) && scoped(
            *ty,
            depth,
        ),
    }
}

/// Every reference of any term that names a definition of a table of `len`
/// entries names one below `len + 1`.
pub proof fn lemma_refs_ok_top(t: Term, len: nat)
    ensures
        refs_ok(t, len, len + 1),
    decreases t,
{
    match t {
        Term::Lambda { body, .. } => lemma_refs_ok_top(*body, len),
        Term::Apply { function, argument, .. } => {
            lemma_refs_ok_top(*function, len);
            lemma_refs_ok_top(*argument, len);
        },
        Term::Put(x) | Term::Wrap(x) => lemma_refs_ok_top(*x, len),
        Term::Duplicate { expression, body } => {
            lemma_refs_ok_top(*expression, len);
            lemma_refs_ok_top(*body, len);
        },
        Term::Function { argument_type, return_type, .. } => {
            lemma_refs_ok_top(*argument_type, len);
            lemma_refs_ok_top(*return_type, len);
        },
        Term::Annotation { expression, ty, .. } => {
            lemma_refs_ok_top(*expression, len);
            lemma_refs_ok_top(*ty, len);
        },
        _ => {},
    }
}

impl Term {
    /// A deep copy of the term.
    pub fn copy(&self) -> (r: Term)
        ensures
            r == *self,
        decreases self,
    {
        match self {
            Term::Variable(i) => Term::Variable(*i),
            Term::Lambda { body, erased } => Term::Lambda {
                body: Box::new(body.copy()),
                erased: *erased,
            },
            Term::Apply { function, argument, erased } => Term::Apply {
                function: Box::new(function.copy()),
                argument: Box::new(argument.copy()),
                erased: *erased,
            },
            Term::Put(x) => Term::Put(Box::new(x.copy())),
            Term::Duplicate { expression, body } => Term::Duplicate {
                expression: Box::new(expression.copy()),
                body: Box::new(body.copy()),
            },
            Term::Reference(n) => Term::Reference(*n),
            Term::Universe => Term::Universe,
            Term::Function { argument_type, return_type, erased } => Term::Function {
                argument_type: Box::new(argument_type.copy()),
                return_type: Box::new(return_type.copy()),
                erased: *erased,
            },
            Term::Annotation { checked, expression, ty } => Term::Annotation {
                checked: *checked,
                expression: Box::new(expression.copy()),
                ty: Box::new(ty.copy()),
            },
            Term::Wrap(x) => Term::Wrap(Box::new(x.copy())),
        }
    }
}

/// A table of named definitions. The definition named `n` is the `n`-th entry;
/// it is closed and refers only to definitions named below `n`, so that no
/// chain of references is cyclic.
pub struct Definitions {
    terms: Vec<Term>,
}

impl Definitions {
    pub closed spec fn view(&self) -> Seq<Term> {
        self.terms@
    }

    pub open spec fn wf(&self) -> bool {
        forall|n: int|
            #![trigger self@[n]]
            0 <= n < self@.len() ==> scoped(self@[n], 0) && refs_below(self@[n], n as nat)
    }

    pub fn new() -> (r: Definitions)
        ensures
            r@ == Seq::<Term>::empty(),
            r.wf(),
    {
        Definitions { terms: Vec::new() }
    }

    /// Adds `term` under the next free name, which is returned. A term that
    /// has a free variable or names a definition not yet present is refused.
    pub fn define(&mut self, term: Term) -> (r: Option<usize>)
        requires
            old(self).wf(),
        ensures
            final(self).wf(),
            match r {
                Some(n) => {
                    &&& scoped(term, 0)
                    &&& refs_below(term, old(self)@.len())
                    &&& n == old(self)@.len()
                    &&& final(self)@ == old(self)@.push(term)
                },
                None => {
                    &&& !(scoped(term, 0) && refs_below(term, old(self)@.len()))
                    &&& final(self)@ == old(self)@
                },
            },
    {
        let len = self.terms.len();
        if term.is_scoped(0) && term.refs_below(len) {
            self.terms.push(term);
            assert(forall|n: int| 0 <= n < len ==> self@[n] == old(self)@[n]);
            Some(len)
        } else {
            None
        }
    }

    /// The definition named `name`, if there is one.
    pub fn get(&self, name: usize) -> (r: Option<&Term>)
        ensures
            match r {
                Some(t) => name < self@.len() && *t == self@[name as int],
                None => name >= self@.len(),
            },
    {
        if name < self.terms.len() {
            Some(&self.terms[name])
        } else {
            None
        }
    }
}

impl Term {
    fn is_scoped(&self, depth: usize) -> (r: bool)
        ensures
            r == scoped(*self, depth as int),
        decreases self,
    {
        match self {
            Term::Variable(i) => i.0 < depth,
            Term::Universe | Term::Reference(_) => true,
            Term::Lambda { body, .. } => {
                if depth == usize::MAX {
                    proof {
                        lemma_scoped_deep(**body, depth as int + 1);
                    }
                    true
                } else {
                    body.is_scoped(depth + 1)
                }
            },
            Term::Apply { function, argument, .. } => function.is_scoped(depth)
                && argument.is_scoped(depth),
            Term::Put(x) | Term::Wrap(x) => x.is_scoped(depth),
            Term::Duplicate { expression, body } => {
                if !expression.is_scoped(depth) {
                    false
                } else if depth == usize::MAX {
                    proof {
                        lemma_scoped_deep(**body, depth as int + 1);
                    }
                    true
                } else {
                    body.is_scoped(depth + 1)
                }
            },
            Term::Function { argument_type, return_type, .. } => {
                if !argument_type.is_scoped(depth) {
                    false
                } else if depth == usize::MAX {
                    proof {
                        lemma_scoped_deep(**return_type, depth as int + 1);
                    }
                    true
                } else {
                    return_type.is_scoped(depth + 1)
                }
            },
            Term::Annotation { expression, ty, .. } => expression.is_scoped(depth) && ty.is_scoped(
                depth,
            ),
        }
    }

    fn refs_below(&self, len: usize) -> (r: bool)
        ensures
            r == refs_below(*self, len as nat),
        decreases self,
    {
        match self {
            Term::Variable(_) | Term::Universe => true,
            Term::Reference(n) => *n < len,
            Term::Lambda { body, .. } => body.refs_below(len),
            Term::Apply { function, argument, .. } => function.refs_below(len)
                && argument.refs_below(len),
            Term::Put(x) | Term::Wrap(x) => x.refs_below(len),
            Term::Duplicate { expression, body } => expression.refs_below(len) && body.refs_below(
                len,
            ),
            Term::Function { argument_type, return_type, .. } => argument_type.refs_below(len)
                && return_type.refs_below(len),
            Term::Annotation { expression, ty, .. } => expression.refs_below(len) && ty.refs_below(
                len,
            ),
        }
    }
}

/// Past the largest index that a variable can hold, every term is scoped.
pub proof fn lemma_scoped_deep(t: Term, depth: int)
    requires
        depth > usize::MAX,
    ensures
        scoped(t, depth),
    decreases t,
{
    match t {
        Term::Lambda { body, .. } => lemma_scoped_deep(*body, depth + 1),
        Term::Apply { function, argument, .. } => {
            lemma_scoped_deep(*function, depth);
            lemma_scoped_deep(*argument, depth);
        },
        Term::Put(x) | Term::Wrap(x) => lemma_scoped_deep(*x, depth),
        Term::Duplicate { expression, body } => {
            lemma_scoped_deep(*expression, depth);
            lemma_scoped_deep(*body, depth + 1);
        },
        Term::Function { argument_type, return_type, .. } => {
            lemma_scoped_deep(*argument_type, depth);
            lemma_scoped_deep(*return_type, depth + 1);
        },
        Term::Annotation { expression, ty, .. } => {
            lemma_scoped_deep(*expression, depth);
            lemma_scoped_deep(*ty, depth);
        },
        _ => {},
    }
}

} // verus!
