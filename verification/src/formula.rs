//! Arithmetic on probabilities that the library asks its caller to do.

use vstd::prelude::*;

use crate::binary64::Binary64;

verus! {

/// A number to compute. Sums run from zero and from left to right.
#[derive(Debug)]
pub enum Formula {
    /// The sum of the exponentials.
    ExpSum(Vec<Binary64>),
    /// The sum of the numbers.
    Sum(Vec<Binary64>),
    /// The first number times the second.
    Product(Binary64, Binary64),
    /// The first number divided by the second.
    Quotient(Binary64, Binary64),
    /// One minus the number.
    Complement(Binary64),
    /// The natural logarithm.
    Log(Binary64),
}

/// What a `Formula` says.
pub enum Term {
    ExpSum(Seq<Binary64>),
    Sum(Seq<Binary64>),
    Product(Binary64, Binary64),
    Quotient(Binary64, Binary64),
    Complement(Binary64),
    Log(Binary64),
}

impl View for Formula {
    type V = Term;

    open spec fn view(&self) -> Term {
        match self {
            Formula::ExpSum(list) => Term::ExpSum(list@),
            Formula::Sum(list) => Term::Sum(list@),
            Formula::Product(a, b) => Term::Product(*a, *b),
            Formula::Quotient(a, b) => Term::Quotient(*a, *b),
            Formula::Complement(a) => Term::Complement(*a),
            Formula::Log(a) => Term::Log(*a),
        }
    }
}

/// What each formula of a list says.
pub open spec fn terms(list: Seq<Formula>) -> Seq<Term> {
    list.map_values(|formula: Formula| formula@)
}

/// The same numbers in a new list.
pub fn copied(list: &Vec<Binary64>) -> (copy: Vec<Binary64>)
    ensures
        copy@ == list@,
{
    let mut copy: Vec<Binary64> = Vec::new();
    let mut i: usize = 0;
    while i < list.len()
        invariant
            i <= list.len(),
            copy@ == list@.take(i as int),
        decreases list.len() - i,
    {
        copy.push(list[i]);
        proof {
            assert(list@.take(i + 1) =~= list@.take(i as int).push(list@[i as int]));
        }
        i = i + 1;
    }
    proof {
        assert(list@.take(list@.len() as int) =~= list@);
    }
    copy
}

/// What a formula says is what it was made of.
pub proof fn law_formula(formula: Formula)
    ensures
        match formula {
            Formula::ExpSum(list) => formula@ == Term::ExpSum(list@),
            Formula::Sum(list) => formula@ == Term::Sum(list@),
            Formula::Product(a, b) => formula@ == Term::Product(a, b),
            Formula::Quotient(a, b) => formula@ == Term::Quotient(a, b),
            Formula::Complement(a) => formula@ == Term::Complement(a),
            Formula::Log(a) => formula@ == Term::Log(a),
        },
{
}

} // verus!
