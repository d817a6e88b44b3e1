//! Where the exercises of a set of numbers are to be fetched.

use vstd::prelude::*;
use crate::decimal::{decimal_text, push_decimal};
use crate::numbers::ExerciseNumberSet;

verus! {

/// The texts of `numbers`, in order, with a comma between each two.
pub open spec fn joined(numbers: Seq<i32>) -> Seq<char>
    decreases numbers.len(),
{
    if numbers.len() == 0 {
        Seq::empty()
    } else if numbers.len() == 1 {
        decimal_text(numbers[0] as int)
    } else {
        joined(numbers.drop_last()) + ","@ + decimal_text(numbers.last() as int)
    }
}

/// The address of the document that holds the exercises `numbers`.
pub open spec fn exercises_url(numbers: Seq<i32>) -> Seq<char> {
    "https://ccinp.mpsi1.fr/"@ + joined(numbers) + ".pdf"@
}

/// Writes the numbers of the set, in their order, with a comma between each two.
pub fn join_numbers(numbers: &ExerciseNumberSet) -> (r: String)
    ensures
        r@ == joined(numbers@),
{
    let mut r = String::new();
    let mut i: usize = 0;
    assert(numbers@.take(0) =~= Seq::<i32>::empty());
    while i < numbers.len()
        invariant
            i <= numbers@.len(),
            r@ == joined(numbers@.take(i as int)),
        decreases numbers@.len() - i,
    {
        proof {
            assert(numbers@.take(i + 1).drop_last() =~= numbers@.take(i as int));
        }
        let n: i32 = match numbers.get(i) {
            Some(n) => n,
            None => 0,
        };
        if i > 0 {
            r.append(",");
        } else {
            assert(r@ + decimal_text(n as int) =~= decimal_text(n as int));
        }
        push_decimal(&mut r, n);
        i += 1;
    }
    proof {
        assert(numbers@.take(i as int) =~= numbers@);
    }
    r
}

/// The address of the document to fetch for the set `numbers`; `None` where the
/// set is empty and there is nothing to fetch.
pub fn secondary_locator(numbers: &ExerciseNumberSet) -> (r: Option<String>)
    ensures
        match r {
            Some(url) => numbers@.len() > 0 && url@ == exercises_url(numbers@),
            None => numbers@.len() == 0,
        },
{
    if numbers.is_empty() {
        return None;
    }
    let mut url = String::from_str("https://ccinp.mpsi1.fr/");
    let tail = join_numbers(numbers);
    url.append(tail.as_str());
    url.append(".pdf");
    Some(url)
}

} // verus!
