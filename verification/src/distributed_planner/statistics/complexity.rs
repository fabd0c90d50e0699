use vstd::prelude::*;

verus! {

/// The bytes that work grows with: those of some of the columns that a node reads or writes.
#[derive(Debug, Clone, Copy, PartialEq, Eq, Structural)]
pub enum LinearComplexity {
    AllColumns,
    AllColumnsFromLeft,
    AllColumnsFromRight,
    AllOutputColumns,
    Column(usize),
    ColumnFromLeft(usize),
    ColumnFromRight(usize),
}

/// How the work of a node grows with its data. Constants count units of work.
#[derive(Debug, PartialEq, Eq)]
pub enum Complexity {
    Constant(u64),
    Linear(LinearComplexity),
    /// The first times the logarithm of the second.
    Log(Box<Complexity>, Box<Complexity>),
    Plus(Box<Complexity>, Box<Complexity>),
    Multiply(Box<Complexity>, Box<Complexity>),
}

impl Clone for Complexity {
    fn clone(&self) -> (copy: Self)
        ensures
            copy == *self,
        decreases self,
    {
        match self {
            Complexity::Constant(v) => Complexity::Constant(*v),
            Complexity::Linear(l) => Complexity::Linear(*l),
            Complexity::Log(n, m) => {
                let (n, m) = ((&**n).clone(), (&**m).clone());
                Complexity::Log(Box::new(n), Box::new(m))
            },
            Complexity::Plus(n, m) => {
                let (n, m) = ((&**n).clone(), (&**m).clone());
                Complexity::Plus(Box::new(n), Box::new(m))
            },
            Complexity::Multiply(n, m) => {
                let (n, m) = ((&**n).clone(), (&**m).clone());
                Complexity::Multiply(Box::new(n), Box::new(m))
            },
        }
    }
}

impl Complexity {
    /// Both amounts of work, one after the other.
    pub fn plus(self, other: Complexity) -> (sum: Complexity)
        ensures
            sum == plus(self, other),
    {
        Complexity::Plus(Box::new(self), Box::new(other))
    }

    /// The second amount of work for each unit of the first.
    pub fn multiply(self, other: Complexity) -> (product: Complexity)
        ensures
            product == Complexity::Multiply(Box::new(self), Box::new(other)),
    {
        Complexity::Multiply(Box::new(self), Box::new(other))
    }

    /// The logarithm of the second amount of work for each unit of the first.
    pub fn log(self, other: Complexity) -> (product: Complexity)
        ensures
            product == Complexity::Log(Box::new(self), Box::new(other)),
    {
        Complexity::Log(Box::new(self), Box::new(other))
    }
}

/// Both amounts of work, one after the other.
pub open spec fn plus(a: Complexity, b: Complexity) -> Complexity {
    Complexity::Plus(Box::new(a), Box::new(b))
}

/// The amounts of work added up from the first to the last.
pub open spec fn sum(terms: Seq<Complexity>) -> Complexity
    recommends
        terms.len() > 0,
    decreases terms.len(),
{
    if terms.len() <= 1 {
        terms[0]
    } else {
        plus(sum(terms.drop_last()), terms.last())
    }
}

/// The amounts of work added up, or one unit where there is none.
pub open spec fn sum_or_unit(terms: Seq<Complexity>) -> Complexity {
    if terms.len() == 0 {
        Complexity::Constant(1)
    } else {
        sum(terms)
    }
}

/// The amounts of work added up, if there is any.
pub open spec fn total(terms: Seq<Complexity>) -> Option<Complexity> {
    if terms.len() == 0 {
        None
    } else {
        Some(sum(terms))
    }
}

/// Adds one more amount of work to what there is.
pub(crate) fn add_term(
    so_far: Option<Complexity>,
    term: Complexity,
    Ghost(terms): Ghost<Seq<Complexity>>,
) -> (result: Option<Complexity>)
    requires
        so_far == total(terms),
    ensures
        result == total(terms.push(term)),
{
    proof {
        assert(terms.push(term).drop_last() =~= terms);
    }
    match so_far {
        Some(existing) => Some(existing.plus(term)),
        None => Some(term),
    }
}

} // verus!
