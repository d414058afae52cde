//! What is seen of optional values, of results and of lists.

use vstd::prelude::*;

verus! {

/// What is seen of an optional value.
pub open spec fn seen<T: View>(x: Option<T>) -> Option<T::V> {
    match x {
        Some(v) => Some(v@),
        None => None,
    }
}

/// What is seen of each value in a list.
pub open spec fn views<T: View>(s: Seq<T>) -> Seq<T::V> {
    Seq::new(s.len(), |i: int| s[i]@)
}

/// The value last put in is seen last.
pub proof fn views_push<T: View>(s: Seq<T>, x: T)
    ensures
        views(s.push(x)) == views(s).push(x@),
{
    assert(views(s.push(x)) =~= views(s).push(x@));
}

/// What is heard of an outcome: the value, or the message.
pub open spec fn heard<T>(r: Result<T, String>) -> Result<T, Seq<char>> {
    match r {
        Ok(value) => Ok(value),
        Err(message) => Err(message@),
    }
}

/// What is heard of each outcome in a list.
pub open spec fn all_heard<T>(s: Seq<Result<T, String>>) -> Seq<Result<T, Seq<char>>> {
    Seq::new(s.len(), |i: int| heard(s[i]))
}

/// What is seen of an outcome: the value's view, or the message.
pub open spec fn known<T: View>(r: Result<T, String>) -> Result<T::V, Seq<char>> {
    match r {
        Ok(value) => Ok(value@),
        Err(message) => Err(message@),
    }
}

/// Whether the value at `i` meets `p` and none before it does.
pub open spec fn first_meets<T>(s: Seq<T>, p: spec_fn(T) -> bool, i: int) -> bool {
    &&& 0 <= i < s.len()
    &&& p(s[i])
    &&& forall|j: int| 0 <= j < i ==> !p(#[trigger] s[j])
}

/// The position of the first value that meets `p`.
pub open spec fn first_where<T>(s: Seq<T>, p: spec_fn(T) -> bool) -> Option<int> {
    if exists|i: int| first_meets(s, p, i) {
        Some(choose|i: int| first_meets(s, p, i))
    } else {
        None
    }
}

/// There is only one first position.
pub proof fn first_is_unique<T>(s: Seq<T>, p: spec_fn(T) -> bool, i: int)
    requires
        first_meets(s, p, i),
    ensures
        first_where(s, p) == Some(i),
{
    let k = choose|k: int| first_meets(s, p, k);
    if k < i {
        assert(!p(s[k]));
    } else if i < k {
        assert(!p(s[i]));
    }
}

/// There is a first position exactly where some value meets `p`.
pub proof fn first_exists<T>(s: Seq<T>, p: spec_fn(T) -> bool)
    ensures
        first_where(s, p) is Some <==> exists|i: int| 0 <= i < s.len() && p(#[trigger] s[i]),
        first_where(s, p) matches Some(i) ==> first_meets(s, p, i),
{
    if exists|i: int| 0 <= i < s.len() && p(#[trigger] s[i]) {
        let i = choose|i: int| 0 <= i < s.len() && p(#[trigger] s[i]);
        lemma_earliest(s, p, i);
    } else if exists|i: int| first_meets(s, p, i) {
        let i = choose|i: int| first_meets(s, p, i);
        assert(p(s[i]));
    }
}

proof fn lemma_earliest<T>(s: Seq<T>, p: spec_fn(T) -> bool, i: int)
    requires
        0 <= i < s.len(),
        p(s[i]),
    ensures
        exists|k: int| first_meets(s, p, k),
    decreases i,
{
    if forall|j: int| 0 <= j < i ==> !p(#[trigger] s[j]) {
        assert(first_meets(s, p, i));
    } else {
        let j = choose|j: int| 0 <= j < i && p(#[trigger] s[j]);
        lemma_earliest(s, p, j);
    }
}

/// What is seen of values is what is seen of each, in their order.
pub proof fn views_are_those_of_each<T: View>(s: Seq<T>, i: int)
    requires
        0 <= i < s.len(),
    ensures
        views(s).len() == s.len(),
        views(s)[i] == s[i]@,
{
}

/// What is heard of outcomes is whether each was a success, with its value or
/// its message.
pub proof fn outcomes_are_heard_one_by_one<T>(s: Seq<Result<T, String>>, i: int)
    requires
        0 <= i < s.len(),
    ensures
        all_heard(s).len() == s.len(),
        match s[i] {
            Ok(value) => all_heard(s)[i] == Ok::<T, Seq<char>>(value),
            Err(message) => all_heard(s)[i] == Err::<T, Seq<char>>(message@),
        },
{
}

/// Optional values and results are seen by what they hold.
pub proof fn values_are_seen_in_place<T: View>(x: Option<T>, r: Result<T, String>)
    ensures
        match x {
            Some(value) => seen(x) == Some(value@),
            None => seen(x) is None,
        },
        match r {
            Ok(value) => known(r) == Ok::<T::V, Seq<char>>(value@) && heard(r) == Ok::<T, Seq<char>>(
                value,
            ),
            Err(message) => known(r) == Err::<T::V, Seq<char>>(message@) && heard(r) == Err::<
                T,
                Seq<char>,
            >(message@),
        },
{
}

} // verus!
