//! Why training can fail.

use vstd::prelude::*;

verus! {

/// Why training can fail.
#[derive(Debug)]
pub enum Error {
    /// There are fewer vectors than clusters.
    TooFewPoints {
        /// The number of vectors.
        n: usize,
        /// The number of clusters.
        k: usize,
    },
    /// The vectors are not made of the expected floating point numbers.
    NotFloating {
        /// The name of the type that they are made of.
        data_type: String,
    },
    /// Centroids cannot be initialized by the method that is asked for.
    UnsupportedInit,
    /// The shape of the data does not fit the request.
    InvalidShape,
    /// A vector belongs to none of the clusters: it has no distance to a centroid
    /// that is a finite number, or the nearest of the given centroids is one too
    /// many.
    NoCluster,
}

/// The decimal digit for a number below ten.
pub open spec fn digit(d: nat) -> char {
    (48 + d) as char
}

/// The decimal digits of a number.
pub open spec fn decimal(n: nat) -> Seq<char>
    decreases n,
{
    if n < 10 {
        seq![digit(n)]
    } else {
        decimal(n / 10).push(digit(n % 10))
    }
}

/// The decimal digit for a number below ten.
fn digit_text(d: usize) -> (r: &'static str)
    requires
        d < 10,
    ensures
        r@ == seq![digit(d as nat)],
{
    proof {
        reveal_strlit("0");
        reveal_strlit("1");
        reveal_strlit("2");
        reveal_strlit("3");
        reveal_strlit("4");
        reveal_strlit("5");
        reveal_strlit("6");
        reveal_strlit("7");
        reveal_strlit("8");
        reveal_strlit("9");
    }
    if d == 0 {
        "0"
    } else if d == 1 {
        "1"
    } else if d == 2 {
        "2"
    } else if d == 3 {
        "3"
    } else if d == 4 {
        "4"
    } else if d == 5 {
        "5"
    } else if d == 6 {
        "6"
    } else if d == 7 {
        "7"
    } else if d == 8 {
        "8"
    } else {
        "9"
    }
}

/// Appends the decimal digits of a number to a text.
fn append_decimal(text: &mut String, n: usize)
    ensures
        final(text)@ == old(text)@ + decimal(n as nat),
    decreases n,
{
    if n >= 10 {
        append_decimal(text, n / 10);
    }
    text.append(digit_text(n % 10));
    proof {
        assert(final(text)@ =~= old(text)@ + decimal(n as nat));
    }
}

impl Error {
    /// What a user is told of the error.
    pub open spec fn text(self) -> Seq<char> {
        match self {
            Error::TooFewPoints { n, k } => {
                "KMeans: training does not have sufficient data points: n("@ + decimal(n as nat)
                    + ") is smaller than k("@ + decimal(k as nat) + ")"@
            },
            Error::NotFloating { data_type } => {
                "KMeans: data must be floating number, got: "@ + data_type@
            },
            Error::UnsupportedInit => "KMeans: k-means++ is not supported"@,
            Error::InvalidShape => "KMeans: the shape of the data does not fit the request"@,
            Error::NoCluster => {
                "KMeans: failed to compute membership: a vector belongs to no cluster"@
            },
        }
    }

    /// What a user is told of the error.
    pub fn to_string(&self) -> (r: String)
        ensures
            r@ == self.text(),
    {
        match self {
            Error::TooFewPoints { n, k } => {
                let mut text: String = String::from_str(
                    "KMeans: training does not have sufficient data points: n(",
                );
                append_decimal(&mut text, *n);
                text.append(") is smaller than k(");
                append_decimal(&mut text, *k);
                text.append(")");
                text
            },
            Error::NotFloating { data_type } => {
                let mut text: String = String::from_str(
                    "KMeans: data must be floating number, got: ",
                );
                text.append(data_type.as_str());
                text
            },
            Error::UnsupportedInit => String::from_str("KMeans: k-means++ is not supported"),
            Error::InvalidShape => String::from_str(
                "KMeans: the shape of the data does not fit the request",
            ),
            Error::NoCluster => String::from_str(
                "KMeans: failed to compute membership: a vector belongs to no cluster",
            ),
        }
    }
}

} // verus!
