//! Gathering the results of many steps into one.
use vstd::prelude::*;

verus! {

/// The values of the results before the first error.
pub open spec fn values_before_error<T, E>(items: Seq<Result<T, E>>) -> Seq<T>
    decreases items.len(),
{
    if items.len() == 0 {
        Seq::empty()
    } else {
        match items[0] {
            Ok(v) => seq![v] + values_before_error(items.drop_first()),
            Err(_) => Seq::empty(),
        }
    }
}

/// The first error among the results, if there is one.
pub open spec fn first_error<T, E>(items: Seq<Result<T, E>>) -> Option<E>
    decreases items.len(),
{
    if items.len() == 0 {
        None
    } else {
        match items[0] {
            Ok(_) => first_error(items.drop_first()),
            Err(e) => Some(e),
        }
    }
}

/// The values of the results, one after the other.
pub open spec fn flat<T>(lists: Seq<Vec<T>>) -> Seq<T>
    decreases lists.len(),
{
    if lists.len() == 0 {
        Seq::empty()
    } else {
        flat(lists.drop_last()) + lists.last()@
    }
}

/// The values of all results, in their order, or the first error among
/// them.
pub fn remove_errors<T, E>(items: Vec<Result<T, E>>) -> (r: Result<Vec<T>, E>)
    ensures
        match r {
            Ok(values) => first_error(items@) is None && values@ == values_before_error(items@),
            Err(e) => first_error(items@) == Some(e),
        },
{
    let ghost all = items@;
    let mut left = items;
    let mut out: Vec<T> = Vec::new();
    proof {
        assert(Seq::<T>::empty() + values_before_error(all) =~= values_before_error(all));
    }
    while left.len() > 0
        invariant
            all == items@,
            first_error(all) == first_error(left@),
            values_before_error(all) == out@ + values_before_error(left@),
        decreases left@.len(),
    {
        let ghost rest = left@;
        let item = left.remove(0);
        proof {
            assert(left@ =~= rest.drop_first());
        }
        match item {
            Ok(v) => {
                proof {
                    assert(out@.push(v) + values_before_error(rest.drop_first()) =~= out@ + (seq![v]
                        + values_before_error(rest.drop_first())));
                }
                out.push(v);
            },
            Err(e) => {
                return Err(e);
            },
        }
    }
    proof {
        assert(out@ + Seq::<T>::empty() =~= out@);
    }
    Ok(out)
}

/// The values of all results, list after list, or the first error among
/// them.
pub fn flat_remove_errors<T, E>(items: Vec<Result<Vec<T>, E>>) -> (r: Result<Vec<T>, E>)
    ensures
        match r {
            Ok(values) => first_error(items@) is None && values@ == flat(
                values_before_error(items@),
            ),
            Err(e) => first_error(items@) == Some(e),
        },
{
    match remove_errors(items) {
        Ok(lists) => {
            let mut lists = lists;
            let ghost all = lists@;
            let n: usize = lists.len();
            let mut out: Vec<T> = Vec::new();
            let mut i: usize = 0;
            proof {
                assert(all.subrange(0, 0) =~= Seq::<Vec<T>>::empty());
            }
            while i < n
                invariant
                    n == lists@.len(),
                    n == all.len(),
                    i <= n,
                    forall|j: int| i <= j < n ==> lists@[j] == all[j],
                    out@ == flat(all.subrange(0, i as int)),
                decreases n - i,
            {
                proof {
                    assert(all.subrange(0, i + 1).drop_last() =~= all.subrange(0, i as int));
                    assert(all.subrange(0, i + 1).last() == all[i as int]);
                }
                out.append(&mut lists[i]);
                i = i + 1;
            }
            proof {
                assert(all.subrange(0, n as int) =~= all);
            }
            Ok(out)
        },
        Err(e) => Err(e),
    }
}

} // verus!
