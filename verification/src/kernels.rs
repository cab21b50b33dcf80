//! Picking the smallest of a sequence of numbers.

use vstd::prelude::*;

use crate::float::Float32;

verus! {

/// Whether some of the values is below the bound.
pub open spec fn any_below(values: Seq<Float32>, bound: Float32) -> bool {
    exists|j: int| 0 <= j < values.len() && (#[trigger] values[j]).less(bound)
}

/// Whether `i` is the first place of the smallest of the values that are below
/// the bound.
pub open spec fn is_argmin(values: Seq<Float32>, bound: Float32, i: int) -> bool {
    &&& 0 <= i < values.len()
    &&& values[i].less(bound)
    &&& forall|j: int| 0 <= j < values.len() ==> !(#[trigger] values[j]).less(values[i])
    &&& forall|j: int|
        0 <= j < i && (#[trigger] values[j]).less(bound) ==> values[i].less(values[j])
}

/// What [`argmin_value`] returns for the values.
pub open spec fn is_argmin_value(values: Seq<Float32>, r: Option<(u32, Float32)>) -> bool {
    match r {
        Some((i, v)) => is_argmin(values, Float32::spec_max(), i as int) && v == values[i as int],
        None => !any_below(values, Float32::spec_max()),
    }
}

/// What [`argmin_value_float`] returns for the values.
pub open spec fn is_argmin_value_float(values: Seq<Float32>, r: (u32, Float32)) -> bool {
    if any_below(values, Float32::spec_infinity()) {
        is_argmin(values, Float32::spec_infinity(), r.0 as int) && r.1 == values[r.0 as int]
    } else {
        r == (0u32, Float32::spec_infinity())
    }
}

/// The first place of the smallest value below the bound, and that value.
fn argmin_below(values: &[Float32], bound: Float32) -> (r: Option<(u32, Float32)>)
    requires
        values@.len() <= 0x1_0000_0000,
        !bound.is_nan(),
    ensures
        match r {
            Some((i, v)) => is_argmin(values@, bound, i as int) && v == values@[i as int],
            None => !any_below(values@, bound),
        },
{
    let mut best: Option<(u32, Float32)> = None;
    let mut least: Float32 = bound;
    let mut i: usize = 0;
    while i < values.len()
        invariant
            i <= values@.len() <= 0x1_0000_0000,
            !bound.is_nan(),
            match best {
                Some((b, v)) => {
                    &&& is_argmin(values@.take(i as int), bound, b as int)
                    &&& v == values@[b as int]
                    &&& least == v
                },
                None => !any_below(values@.take(i as int), bound) && least == bound,
            },
        decreases values@.len() - i,
    {
        let ghost seen = values@.take(i as int);
        let ghost more = values@.take(i + 1);
        let value: Float32 = values[i];
        proof {
            assert forall|j: int| 0 <= j < i implies #[trigger] more[j] == seen[j] by {}
            assert(more[i as int] == value);
        }
        if value.lt(least) {
            least = value;
            best = Some((i as u32, value));
            proof {
                assert(is_argmin(more, bound, i as int)) by {
                    assert forall|j: int| 0 <= j < more.len() implies !(
                    #[trigger] more[j]).less(more[i as int]) by {
                        if j < i {
                            assert(more[j] == seen[j]);
                        }
                    }
                    assert forall|j: int|
                        0 <= j < i && (#[trigger] more[j]).less(bound) implies more[i as int].less(
                        more[j],
                    ) by {
                        assert(more[j] == seen[j]);
                    }
                }
            }
        } else {
            proof {
                match best {
                    Some((b, v)) => {
                        assert(more[b as int] == seen[b as int]);
                        assert(is_argmin(more, bound, b as int)) by {
                            assert forall|j: int| 0 <= j < more.len() implies !(
                            #[trigger] more[j]).less(more[b as int]) by {
                                if j < i {
                                    assert(more[j] == seen[j]);
                                }
                            }
                        }
                    },
                    None => {
                        assert forall|j: int| 0 <= j < more.len() implies !(
                        #[trigger] more[j]).less(bound) by {
                            if j < i {
                                assert(more[j] == seen[j]);
                            }
                        }
                    },
                }
            }
        }
        i += 1;
    }
    assert(values@.take(i as int) =~= values@);
    best
}

/// The first place of the smallest value, and that value; `None` where no value
/// is below the largest finite number.
pub fn argmin_value(values: &[Float32]) -> (r: Option<(u32, Float32)>)
    requires
        values@.len() <= 0x1_0000_0000,
    ensures
        is_argmin_value(values@, r),
{
    argmin_below(values, Float32::max())
}

/// The first place of the smallest value; `None` where no value is below the
/// largest finite number.
pub fn argmin(values: &[Float32]) -> (r: Option<u32>)
    requires
        values@.len() <= 0x1_0000_0000,
    ensures
        match r {
            Some(i) => is_argmin(values@, Float32::spec_max(), i as int),
            None => !any_below(values@, Float32::spec_max()),
        },
{
    match argmin_value(values) {
        Some((i, _)) => Some(i),
        None => None,
    }
}

/// The first place of the smallest value, and that value; place 0 and infinity
/// where no value is below infinity.
pub fn argmin_value_float(values: &[Float32]) -> (r: (u32, Float32))
    requires
        values@.len() <= 0x1_0000_0000,
    ensures
        is_argmin_value_float(values@, r),
{
    match argmin_below(values, Float32::infinity()) {
        Some(found) => found,
        None => (0, Float32::infinity()),
    }
}

/// At most one place is the first place of the smallest value.
pub proof fn lemma_argmin_is_unique(values: Seq<Float32>, bound: Float32, a: int, b: int)
    requires
        is_argmin(values, bound, a),
        is_argmin(values, bound, b),
    ensures
        a == b,
{
    if a < b {
        assert(values[b].less(values[a]));
    } else if b < a {
        assert(values[a].less(values[b]));
    }
}

/// There is a first place of the smallest value exactly where some value is
/// below the bound.
pub proof fn law_argmin_exists(values: Seq<Float32>, bound: Float32)
    ensures
        any_below(values, bound) <==> exists|i: int| is_argmin(values, bound, i),
    decreases values.len(),
{
    if values.len() > 0 {
        let init = values.drop_last();
        let last = values.len() - 1;
        law_argmin_exists(init, bound);
        assert forall|j: int| 0 <= j < last implies #[trigger] values[j] == init[j] by {}
        if any_below(init, bound) {
            let i = choose|i: int| is_argmin(init, bound, i);
            assert(values[i] == init[i]);
            if values[last].less(values[i]) {
                assert forall|j: int| 0 <= j < values.len() implies !(#[trigger] values[j]).less(
                    values[last],
                ) by {
                    if j < last {
                        assert(values[j] == init[j]);
                    }
                }
                assert(is_argmin(values, bound, last));
            } else {
                assert(is_argmin(values, bound, i));
            }
        } else if values[last].less(bound) {
            assert forall|j: int| 0 <= j < last implies !(#[trigger] values[j]).less(bound) by {
                assert(values[j] == init[j]);
            }
            assert(is_argmin(values, bound, last));
        } else {
            assert forall|j: int| 0 <= j < values.len() implies !(#[trigger] values[j]).less(
                bound,
            ) by {
                if j < last {
                    assert(values[j] == init[j]);
                }
            }
        }
    }
}

/// The smallest of a sequence and of what follows it, put together.
pub open spec fn merge_argmin(
    len: nat,
    a: (u32, Float32),
    b: (u32, Float32),
) -> (u32, Float32) {
    if b.1.less(a.1) {
        ((len + b.0) as u32, b.1)
    } else {
        a
    }
}

/// The smallest of a sequence is the smaller of those of its two parts, and of
/// two equal ones the first.
pub proof fn lemma_argmin_of_parts(
    front: Seq<Float32>,
    back: Seq<Float32>,
    a: (u32, Float32),
    b: (u32, Float32),
)
    requires
        front.len() + back.len() <= 0x1_0000_0000,
        is_argmin_value_float(front, a),
        is_argmin_value(back, Some(b)),
    ensures
        is_argmin_value_float(front + back, merge_argmin(front.len(), a, b)),
{
    let whole = front + back;
    let bound = Float32::spec_infinity();
    let n = front.len() as int;
    let r = merge_argmin(front.len(), a, b);
    assert forall|j: int| 0 <= j < n implies #[trigger] whole[j] == front[j] by {}
    assert forall|j: int| n <= j < whole.len() implies #[trigger] whole[j] == back[j - n] by {}
    assert(whole[n + b.0] == back[b.0 as int]);
    assert(any_below(whole, bound));
    if b.1.less(a.1) {
        assert(r.0 as int == n + b.0);
        assert forall|j: int| 0 <= j < whole.len() implies !(#[trigger] whole[j]).less(
            whole[n + b.0],
        ) by {
            if j < n {
                assert(whole[j] == front[j]);
            } else {
                assert(whole[j] == back[j - n]);
            }
        }
        assert forall|j: int| 0 <= j < n + b.0 && (#[trigger] whole[j]).less(bound) implies whole[n
            + b.0].less(whole[j]) by {
            if j < n {
                assert(whole[j] == front[j]);
            } else {
                assert(whole[j] == back[j - n]);
                assert(!back[j - n].less(back[b.0 as int]));
            }
        }
    } else {
        assert(any_below(front, bound));
        assert(whole[a.0 as int] == front[a.0 as int]);
        assert forall|j: int| 0 <= j < whole.len() implies !(#[trigger] whole[j]).less(
            whole[a.0 as int],
        ) by {
            if j < n {
                assert(whole[j] == front[j]);
            } else {
                assert(whole[j] == back[j - n]);
                assert(!back[j - n].less(back[b.0 as int]));
            }
        }
        assert forall|j: int|
            0 <= j < a.0 && (#[trigger] whole[j]).less(bound) implies whole[a.0 as int].less(
            whole[j],
        ) by {
            assert(whole[j] == front[j]);
        }
    }
}

} // verus!
