//! What to answer to a request for the n-th prime, decided from the values
//! that the request carries for its parameter.

use vstd::prelude::*;
use crate::index::PrimeIndex;
use crate::primality::nth_prime_of;
use crate::table::{decimal_value, parse_decimal};

verus! {

/// The answer to a request for the n-th prime.
#[derive(Clone, Copy, Debug, PartialEq, Eq, Structural)]
pub enum Answer {
    /// The prime that was asked for.
    Found(usize),
    /// The request carries no value for the parameter.
    MissingParameter,
    /// The request carries no or several values where one is expected.
    NotSingle,
    /// The value is not a decimal numeral.
    NotANumber,
    /// The rank, given here, exceeds the number of primes that the table
    /// covers.
    TooLarge(usize),
    /// The rank is zero; ranks count from 1.
    Zero,
}

/// The answer to a single value `text`, where the table covers `total`
/// primes.
pub open spec fn verdict(total: int, text: Seq<u8>) -> Answer {
    match decimal_value(text) {
        None => Answer::NotANumber,
        Some(rank) => if rank > total {
            Answer::TooLarge(rank)
        } else if rank == 0 {
            Answer::Zero
        } else {
            Answer::Found(nth_prime_of(rank as int) as usize)
        },
    }
}

/// Answers a request for the n-th prime from the values of its parameter.
///
/// The parameter must be present with exactly one value, a decimal numeral
/// that is neither zero nor beyond the primes that the table covers; the
/// answer is then the prime of that rank, and otherwise says which of these
/// failed first.
pub fn answer_nth_prime(index: &PrimeIndex, values: Option<&Vec<Vec<u8>>>) -> (answer: Answer)
    requires
        index.wf(),
        index.table_exact(),
    ensures
        answer == match values {
            None => Answer::MissingParameter,
            Some(given) => if given.len() != 1 {
                Answer::NotSingle
            } else {
                verdict(index.spec_total_primes(), given[0]@)
            },
        },
{
    let given: &Vec<Vec<u8>> = match values {
        None => {
            return Answer::MissingParameter;
        },
        Some(given) => given,
    };
    if given.len() != 1 {
        return Answer::NotSingle;
    }
    let rank: usize = match parse_decimal(given[0].as_slice()) {
        None => {
            return Answer::NotANumber;
        },
        Some(rank) => rank,
    };
    if rank > index.total_primes() {
        return Answer::TooLarge(rank);
    }
    if rank == 0 {
        return Answer::Zero;
    }
    Answer::Found(index.nth_prime(rank))
}

} // verus!
