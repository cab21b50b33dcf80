//! What errors tell.

use vstd::prelude::*;

use crate::error::{decimal, digit, Error};

verus! {

/// The number that a sequence of decimal digits is read as.
pub open spec fn reading(text: Seq<char>) -> int
    decreases text.len(),
{
    if text.len() == 0 {
        0
    } else {
        reading(text.drop_last()) * 10 + (text.last() as int - 48)
    }
}

/// Whether a text is a number as people write it: digits, without a zero in
/// front of others.
pub open spec fn is_written(text: Seq<char>, n: int) -> bool {
    &&& text.len() > 0
    &&& forall|i: int| 0 <= i < text.len() ==> 48 <= (#[trigger] text[i]) as int <= 57
    &&& text.len() > 1 ==> text[0] as int != 48
    &&& reading(text) == n
}

/// A number is written so that it is read back.
pub proof fn law_decimal_is_read_back(n: nat)
    ensures
        is_written(decimal(n), n as int),
    decreases n,
{
    let text = decimal(n);
    if n < 10 {
        assert(text.drop_last() =~= Seq::<char>::empty());
        assert(reading(text.drop_last()) == 0);
        assert(text.last() == digit(n));
    } else {
        law_decimal_is_read_back(n / 10);
        let front = decimal(n / 10);
        assert(text.drop_last() =~= front);
        assert(text.last() == digit(n % 10));
        assert forall|i: int| 0 <= i < text.len() implies 48 <= (#[trigger] text[i]) as int
            <= 57 by {
            if i < front.len() {
                assert(text[i] == front[i]);
            }
        }
        assert(text[0] == front[0]);
        if front.len() == 1 {
            assert(front.drop_last() =~= Seq::<char>::empty());
            assert(reading(front.drop_last()) == 0);
            assert(front.last() == front[0]);
        }
    }
}

/// The error for too few vectors tells how many vectors and how many clusters
/// there are.
pub proof fn law_too_few_points_are_told(n: usize, k: usize)
    ensures
        exists|a: Seq<char>, b: Seq<char>|
            {
                &&& #[trigger] is_written(a, n as int)
                &&& #[trigger] is_written(b, k as int)
                &&& (Error::TooFewPoints { n, k }).text()
                    == "KMeans: training does not have sufficient data points: n("@ + a
                    + ") is smaller than k("@ + b + ")"@
            },
{
    law_decimal_is_read_back(n as nat);
    law_decimal_is_read_back(k as nat);
    assert(is_written(decimal(n as nat), n as int));
    assert(is_written(decimal(k as nat), k as int));
}

/// What errors tell where they have no numbers to tell.
pub proof fn law_errors_tell_why(e: Error)
    ensures
        e matches Error::NotFloating { data_type } ==> e.text()
            == "KMeans: data must be floating number, got: "@ + data_type@,
        e is UnsupportedInit ==> e.text() == "KMeans: k-means++ is not supported"@,
        e is InvalidShape ==> e.text()
            == "KMeans: the shape of the data does not fit the request"@,
        e is NoCluster ==> e.text()
            == "KMeans: failed to compute membership: a vector belongs to no cluster"@,
{
}

} // verus!
