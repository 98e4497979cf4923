use vstd::prelude::*;

use crate::term::{lemma_refs_below_ok, lemma_refs_ok_top, refs_ok, Definitions, Term};

verus! {

/// Why a term breaks the usage discipline.
#[derive(Debug)]
pub enum StratificationError {
    /// A lambda's body refers to the lambda's binder more than once.
    AffineReused { term: Term },
    /// A lambda's body refers to the lambda's binder from inside a box.
    AffineUsedInBox { term: Term },
    /// A duplication's body refers to the duplicated binding other than from
    /// inside exactly one box.
    DupNonUnitBoxMultiplicity { term: Term },
    /// A reference names no definition.
    UndefinedReference { name: usize },
}

/// How often `t` refers to the binder that stands `depth` binders above it.
/// Arguments that are erased never reach the net and are not counted.
pub open spec fn uses_at(t: Term, depth: int) -> nat
    decreases t,
{
    match t {
        Term::Variable(i) => if i.0 == depth {
            1
        } else {
            0
        },
        Term::Reference(_) | Term::Universe => 0,
        Term::Lambda { body, .. } => uses_at(*body, depth + 1),
        Term::Apply { function, argument, erased } => uses_at(*function, depth) + if erased {
            0
        } else {
            uses_at(*argument, depth)
        },
        Term::Put(x) | Term::Wrap(x) => uses_at(*x, depth),
        Term::Duplicate { expression, body } => uses_at(*expression, depth) + uses_at(
            *body,
            depth + 1,
        ),
        Term::Annotation { expression, .. } => uses_at(*expression, depth),
        Term::Function { argument_type, return_type, .. } => uses_at(*argument_type, depth)
            + uses_at(*return_type, depth + 1),
    }
}

/// Every reference of `t` to the binder `depth` binders above it sits under
/// `target` boxes, counting the `level` boxes already crossed.
pub open spec fn at_level(t: Term, target: int, depth: int, level: int) -> bool
    decreases t,
{
    match t {
        Term::Reference(_) | Term::Universe => true,
        Term::Variable(i) => i.0 != depth || level == target,
        Term::Lambda { body, .. } => at_level(*body, target, depth + 1, level),
        Term::Apply { function, argument, .. } => at_level(*function, target, depth, level)
            && at_level(*argument, target, depth, level),
        Term::Put(x) => at_level(*x, target, depth, level + 1),
        Term::Wrap(x) => at_level(*x, target, depth, level),
        Term::Annotation { expression, .. } => at_level(*expression, target, depth, level),
        Term::Duplicate { expression, body } => at_level(*expression, target, depth, level)
            && at_level(*body, target, depth + 1, level),
        Term::Function { argument_type, return_type, .. } => at_level(
            *argument_type,
            target,
            depth,
            level,
        ) && at_level(*return_type, target, depth + 1, level),
    }
}

/// The outcome of checking `t` against the usage discipline, with `defs` as
/// the definitions: the first violation met in a left-to-right walk, or
/// success. A reference to a definition is checked by checking that
/// definition; `bound` limits which definitions the walk may still enter.
pub open spec fn check(t: Term, defs: Seq<Term>, bound: nat) -> Result<(), StratificationError>
    decreases bound, t,
{
    match t {
        Term::Lambda { body, .. } => if uses_at(*body, 0) > 1 {
            Err(StratificationError::AffineReused { term: t })
        } else if !at_level(*body, 0, 0, 0) {
            Err(StratificationError::AffineUsedInBox { term: t })
        } else {
            check(*body, defs, bound)
        },
        Term::Apply { function, argument, .. } => match check(*function, defs, bound) {
            Ok(_) => check(*argument, defs, bound),
            Err(e) => Err(e),
        },
        Term::Put(x) | Term::Wrap(x) => check(*x, defs, bound),
        Term::Annotation { expression, .. } => check(*expression, defs, bound),
        Term::Function { argument_type, return_type, .. } => match check(
            *argument_type,
            defs,
            bound,
        ) {
            Ok(_) => check(*return_type, defs, bound),
            Err(e) => Err(e),
        },
        Term::Duplicate { expression, body } => if !at_level(*body, 1, 0, 0) {
            Err(StratificationError::DupNonUnitBoxMultiplicity { term: t })
        } else {
            match check(*expression, defs, bound) {
                Ok(_) => check(*body, defs, bound),
                Err(e) => Err(e),
            }
        },
        Term::Reference(n) => if n >= defs.len() {
            Err(StratificationError::UndefinedReference { name: n })
        } else if n < bound {
            check(defs[n as int], defs, n as nat)
        } else {
            Ok(())
        },
        Term::Variable(_) | Term::Universe => Ok(()),
    }
}

/// The outcome of checking the term `t` with `defs` as the definitions.
pub open spec fn stratification(t: Term, defs: Seq<Term>) -> Result<(), StratificationError> {
    check(t, defs, defs.len() + 1)
}

/// A term that has passed the checker, together with the definitions it was
/// checked against. Only the checker makes one.
pub struct Stratified<'a> {
    term: Term,
    definitions: &'a Definitions,
}

impl<'a> Stratified<'a> {
    pub closed spec fn term(&self) -> Term {
        self.term
    }

    pub closed spec fn definitions(&self) -> Definitions {
        *self.definitions
    }

    pub closed spec fn wf(&self) -> bool {
        &&& self.definitions.wf()
        &&& stratification(self.term, self.definitions@) is Ok
    }

    /// The checked term.
    pub fn into_inner(self) -> (r: Term)
        ensures
            r == self.term(),
    {
        self.term
    }

    /// The checked term, borrowed.
    pub fn as_term(&self) -> (r: &Term)
        ensures
            *r == self.term(),
    {
        &self.term
    }

    /// The definitions the term was checked against.
    pub fn as_definitions(&self) -> (r: &'a Definitions)
        ensures
            *r == self.definitions(),
            self.wf() ==> r.wf() && stratification(self.term(), r@) is Ok,
    {
        self.definitions
    }
}

/// A lambda whose body refers to the lambda's binder more than once is
/// refused as reused. A lambda whose body refers to it exactly once, outside
/// any box, and is itself accepted, is accepted.
pub proof fn lemma_stratification_soundness(body: Term, erased: bool, defs: Seq<Term>)
    ensures
        uses_at(body, 0) > 1 ==> stratification(Term::Lambda { body: Box::new(body), erased }, defs)
            == Err::<(), _>(
            StratificationError::AffineReused { term: Term::Lambda { body: Box::new(body), erased } },
        ),
        uses_at(body, 0) == 1 && at_level(body, 0, 0, 0) && stratification(body, defs) is Ok
            ==> stratification(Term::Lambda { body: Box::new(body), erased }, defs) is Ok,
{
}

/// Whether `t`, or a definition it reaches, holds a lambda whose body
/// refers to the lambda's binder more than once.
pub open spec fn has_reused(t: Term, defs: Seq<Term>, bound: nat) -> bool
    decreases bound, t,
{
    match t {
        Term::Lambda { body, .. } => uses_at(*body, 0) > 1 || has_reused(*body, defs, bound),
        Term::Apply { function, argument, .. } => has_reused(*function, defs, bound) || has_reused(
            *argument,
            defs,
            bound,
        ),
        Term::Put(x) | Term::Wrap(x) => has_reused(*x, defs, bound),
        Term::Annotation { expression, .. } => has_reused(*expression, defs, bound),
        Term::Function { argument_type, return_type, .. } => has_reused(*argument_type, defs, bound)
            || has_reused(*return_type, defs, bound),
        Term::Duplicate { expression, body } => has_reused(*expression, defs, bound) || has_reused(
            *body,
            defs,
            bound,
        ),
        Term::Reference(n) => n < defs.len() && n < bound && has_reused(defs[n as int], defs, n as nat),
        Term::Variable(_) | Term::Universe => false,
    }
}

/// A term that holds a reused lambda anywhere, directly or in a definition it
/// reaches, is refused.
pub proof fn lemma_reused_anywhere_refused(t: Term, defs: Seq<Term>, bound: nat)
    requires
        has_reused(t, defs, bound),
    ensures
        check(t, defs, bound) is Err,
    decreases bound, t,
{
    match t {
        Term::Lambda { body, .. } => {
            if uses_at(*body, 0) <= 1 {
                lemma_reused_anywhere_refused(*body, defs, bound);
            }
        },
        Term::Apply { function, argument, .. } => {
            if has_reused(*function, defs, bound) {
                lemma_reused_anywhere_refused(*function, defs, bound);
            } else {
                lemma_reused_anywhere_refused(*argument, defs, bound);
            }
        },
        Term::Put(x) | Term::Wrap(x) => lemma_reused_anywhere_refused(*x, defs, bound),
        Term::Annotation { expression, .. } => lemma_reused_anywhere_refused(*expression, defs, bound),
        Term::Function { argument_type, return_type, .. } => {
            if has_reused(*argument_type, defs, bound) {
                lemma_reused_anywhere_refused(*argument_type, defs, bound);
            } else {
                lemma_reused_anywhere_refused(*return_type, defs, bound);
            }
        },
        Term::Duplicate { expression, body } => {
            if has_reused(*expression, defs, bound) {
                lemma_reused_anywhere_refused(*expression, defs, bound);
            } else {
                lemma_reused_anywhere_refused(*body, defs, bound);
            }
        },
        Term::Reference(n) => lemma_reused_anywhere_refused(defs[n as int], defs, n as nat),
        _ => {},
    }
}

/// Past the largest index a variable can hold, no variable refers to the binder.
pub proof fn lemma_deep(t: Term, target: int, depth: int, level: int)
    requires
        depth > usize::MAX,
    ensures
        uses_at(t, depth) == 0,
        at_level(t, target, depth, level),
    decreases t,
{
    match t {
        Term::Lambda { body, .. } => lemma_deep(*body, target, depth + 1, level),
        Term::Apply { function, argument, .. } => {
            lemma_deep(*function, target, depth, level);
            lemma_deep(*argument, target, depth, level);
        },
        Term::Put(x) => lemma_deep(*x, target, depth, level + 1),
        Term::Wrap(x) => lemma_deep(*x, target, depth, level),
        Term::Annotation { expression, .. } => lemma_deep(*expression, target, depth, level),
        Term::Duplicate { expression, body } => {
            lemma_deep(*expression, target, depth, level);
            lemma_deep(*body, target, depth + 1, level);
        },
        Term::Function { argument_type, return_type, .. } => {
            lemma_deep(*argument_type, target, depth, level);
            lemma_deep(*return_type, target, depth + 1, level);
        },
        _ => {},
    }
}

/// Once the level has passed the target, neither further boxes nor the
/// target matter: every reference to the binder is then at the wrong level.
pub proof fn lemma_level_past(t: Term, s: int, u: int, depth: int, a: int, b: int)
    requires
        a > s,
        b > u,
    ensures
        at_level(t, s, depth, a) == at_level(t, u, depth, b),
    decreases t,
{
    match t {
        Term::Lambda { body, .. } => lemma_level_past(*body, s, u, depth + 1, a, b),
        Term::Apply { function, argument, .. } => {
            lemma_level_past(*function, s, u, depth, a, b);
            lemma_level_past(*argument, s, u, depth, a, b);
        },
        Term::Put(x) => lemma_level_past(*x, s, u, depth, a + 1, b + 1),
        Term::Wrap(x) => lemma_level_past(*x, s, u, depth, a, b),
        Term::Annotation { expression, .. } => lemma_level_past(*expression, s, u, depth, a, b),
        Term::Duplicate { expression, body } => {
            lemma_level_past(*expression, s, u, depth, a, b);
            lemma_level_past(*body, s, u, depth + 1, a, b);
        },
        Term::Function { argument_type, return_type, .. } => {
            lemma_level_past(*argument_type, s, u, depth, a, b);
            lemma_level_past(*return_type, s, u, depth + 1, a, b);
        },
        _ => {},
    }
}

fn add_capped(a: usize, b: usize) -> (r: usize)
    ensures
        r == if a + b > usize::MAX {
            usize::MAX as int
        } else {
            a + b
        },
{
    if a > usize::MAX - b {
        usize::MAX
    } else {
        a + b
    }
}

pub open spec fn capped(n: nat) -> int {
    if n > usize::MAX {
        usize::MAX as int
    } else {
        n as int
    }
}

impl Term {
    /// How often the term refers to the binder directly above it, capped at
    /// the largest `usize`.
    pub fn uses(&self) -> (r: usize)
        ensures
            r == capped(uses_at(*self, 0)),
    {
        self.uses_helper(0)
    }

    fn uses_helper(&self, depth: usize) -> (r: usize)
        ensures
            r == capped(uses_at(*self, depth as int)),
        decreases self, 0nat,
    {
        match self {
            Term::Variable(i) => if i.0 == depth {
                1
            } else {
                0
            },
            Term::Reference(_) | Term::Universe => 0,
            Term::Lambda { body, .. } => body.uses_deeper(depth),
            Term::Apply { function, argument, erased } => {
                let f = function.uses_helper(depth);
                if *erased {
                    f
                } else {
                    add_capped(f, argument.uses_helper(depth))
                }
            },
            Term::Put(x) | Term::Wrap(x) => x.uses_helper(depth),
            Term::Duplicate { expression, body } => add_capped(
                expression.uses_helper(depth),
                body.uses_deeper(depth),
            ),
            Term::Annotation { expression, .. } => expression.uses_helper(depth),
            Term::Function { argument_type, return_type, .. } => add_capped(
                argument_type.uses_helper(depth),
                return_type.uses_deeper(depth),
            ),
        }
    }

    fn uses_deeper(&self, depth: usize) -> (r: usize)
        ensures
            r == capped(uses_at(*self, depth + 1)),
        decreases self, 1nat,
    {
        if depth == usize::MAX {
            proof {
                lemma_deep(*self, 0, depth + 1, 0);
            }
            0
        } else {
            self.uses_helper(depth + 1)
        }
    }

    /// Whether every reference of the term to the binder `depth` binders above
    /// it sits under exactly `target` boxes, `level` boxes being already crossed.
    pub fn is_at_level(&self, target: usize, depth: usize, level: usize) -> (r: bool)
        ensures
            r == at_level(*self, target as int, depth as int, level as int),
        decreases self, 0nat,
    {
        match self {
            Term::Reference(_) | Term::Universe => true,
            Term::Variable(i) => i.0 != depth || level == target,
            Term::Lambda { body, .. } => body.at_level_deeper(target, depth, level),
            Term::Apply { function, argument, .. } => function.is_at_level(target, depth, level)
                && argument.is_at_level(target, depth, level),
            Term::Put(x) => {
                if level >= target {
                    proof {
                        lemma_level_past(**x, target as int, 0, depth as int, level + 1, 1);
                    }
                    x.is_at_level(0, depth, 1)
                } else {
                    x.is_at_level(target, depth, level + 1)
                }
            },
            Term::Wrap(x) => x.is_at_level(target, depth, level),
            Term::Annotation { expression, .. } => expression.is_at_level(target, depth, level),
            Term::Duplicate { expression, body } => expression.is_at_level(target, depth, level)
                && body.at_level_deeper(target, depth, level),
            Term::Function { argument_type, return_type, .. } => argument_type.is_at_level(
                target,
                depth,
                level,
            ) && return_type.at_level_deeper(target, depth, level),
        }
    }

    fn at_level_deeper(&self, target: usize, depth: usize, level: usize) -> (r: bool)
        ensures
            r == at_level(*self, target as int, depth + 1, level as int),
        decreases self, 1nat,
    {
        if depth == usize::MAX {
            proof {
                lemma_deep(*self, target as int, depth + 1, level as int);
            }
            true
        } else {
            self.is_at_level(target, depth + 1, level)
        }
    }

    fn is_stratified(&self, definitions: &Definitions, Ghost(bound): Ghost<nat>) -> (r: Result<
        (),
        StratificationError,
    >)
        requires
            definitions.wf(),
            refs_ok(*self, definitions@.len(), bound),
        ensures
            r == check(*self, definitions@, bound),
        decreases bound, self,
    {
        match self {
            Term::Lambda { body, .. } => {
                if body.uses() > 1 {
                    return Err(StratificationError::AffineReused { term: self.copy() });
                }
                if !body.is_at_level(0, 0, 0) {
                    return Err(StratificationError::AffineUsedInBox { term: self.copy() });
                }
                body.is_stratified(definitions, Ghost(bound))
            },
            Term::Apply { function, argument, .. } => {
                function.is_stratified(definitions, Ghost(bound))?;
                argument.is_stratified(definitions, Ghost(bound))
            },
            Term::Put(x) | Term::Wrap(x) => x.is_stratified(definitions, Ghost(bound)),
            Term::Annotation { expression, .. } => expression.is_stratified(
                definitions,
                Ghost(bound),
            ),
            Term::Function { argument_type, return_type, .. } => {
                argument_type.is_stratified(definitions, Ghost(bound))?;
                return_type.is_stratified(definitions, Ghost(bound))
            },
            Term::Duplicate { expression, body } => {
                if !body.is_at_level(1, 0, 0) {
                    return Err(
                        StratificationError::DupNonUnitBoxMultiplicity { term: self.copy() },
                    );
                }
                expression.is_stratified(definitions, Ghost(bound))?;
                body.is_stratified(definitions, Ghost(bound))
            },
            Term::Reference(name) => match definitions.get(*name) {
                Some(term) => {
                    proof {
                        lemma_refs_below_ok(*term, definitions@.len(), *name as nat);
                    }
                    term.is_stratified(definitions, Ghost(*name as nat))
                },
                None => Err(StratificationError::UndefinedReference { name: *name }),
            },
            Term::Variable(_) | Term::Universe => Ok(()),
        }
    }

    /// Checks the term against the usage discipline, with `definitions` as the
    /// definitions its references name.
    pub fn stratified<'a>(self, definitions: &'a Definitions) -> (r: Result<
        Stratified<'a>,
        StratificationError,
    >)
        requires
            definitions.wf(),
        ensures
            match r {
                Ok(s) => {
                    &&& stratification(self, definitions@) is Ok
                    &&& s.wf()
                    &&& s.term() == self
                    &&& s.definitions() == *definitions
                },
                Err(e) => stratification(self, definitions@) == Err::<(), _>(e),
            },
    {
        proof {
            lemma_refs_ok_top(self, definitions@.len());
        }
        match self.is_stratified(definitions, Ghost(definitions@.len() + 1)) {
            Ok(_) => Ok(Stratified { term: self, definitions }),
            Err(e) => Err(e),
        }
    }
}

} // verus!
