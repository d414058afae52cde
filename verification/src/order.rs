//! Ordering by rank: a rank is a sequence of numbers, and ranks are compared
//! like words in a dictionary. Sorting is stable.

use vstd::prelude::*;

use crate::text::chars_of;

verus! {

/// Dictionary order: `a` comes before `b`.
pub open spec fn precedes(a: Seq<u64>, b: Seq<u64>) -> bool
    decreases a.len(),
{
    if b.len() == 0 {
        false
    } else if a.len() == 0 {
        true
    } else if a[0] != b[0] {
        a[0] < b[0]
    } else {
        precedes(a.drop_first(), b.drop_first())
    }
}

/// No rank comes before itself.
pub proof fn precedes_is_irreflexive(a: Seq<u64>)
    ensures
        !precedes(a, a),
    decreases a.len(),
{
    if a.len() > 0 {
        precedes_is_irreflexive(a.drop_first());
    }
}

/// Of two ranks, one comes before the other or they are the same.
pub proof fn precedes_is_total(a: Seq<u64>, b: Seq<u64>)
    ensures
        precedes(a, b) || precedes(b, a) || a == b,
        !(precedes(a, b) && precedes(b, a)),
    decreases a.len(),
{
    if a.len() > 0 && b.len() > 0 {
        precedes_is_total(a.drop_first(), b.drop_first());
        if a[0] == b[0] && a.drop_first() == b.drop_first() {
            assert(a =~= seq![a[0]] + a.drop_first());
            assert(b =~= seq![b[0]] + b.drop_first());
        }
    } else if a.len() == 0 && b.len() == 0 {
        assert(a =~= b);
    }
}

/// Dictionary order is transitive.
pub proof fn precedes_is_transitive(a: Seq<u64>, b: Seq<u64>, c: Seq<u64>)
    requires
        precedes(a, b),
        precedes(b, c),
    ensures
        precedes(a, c),
    decreases a.len(),
{
    if a.len() > 0 && b.len() > 0 && c.len() > 0 && a[0] == b[0] && b[0] == c[0] {
        precedes_is_transitive(a.drop_first(), b.drop_first(), c.drop_first());
    }
}

/// Whether the rank `a` comes before the rank `b`.
pub fn key_precedes(a: &Vec<u64>, b: &Vec<u64>) -> (r: bool)
    ensures
        r == precedes(a@, b@),
{
    let mut i: usize = 0;
    assert(a@.skip(0) =~= a@);
    assert(b@.skip(0) =~= b@);
    while i < a.len() && i < b.len()
        invariant
            i <= a.len(),
            i <= b.len(),
            precedes(a@, b@) == precedes(a@.skip(i as int), b@.skip(i as int)),
        decreases a.len() - i,
    {
        assert(a@.skip(i as int).drop_first() =~= a@.skip(i + 1));
        assert(b@.skip(i as int).drop_first() =~= b@.skip(i + 1));
        if a[i] != b[i] {
            return a[i] < b[i];
        }
        i = i + 1;
    }
    i < b.len()
}

/// Whether two ranks are the same.
pub fn same_key(a: &Vec<u64>, b: &Vec<u64>) -> (r: bool)
    ensures
        r == (a@ == b@),
{
    let less = key_precedes(a, b);
    let greater = key_precedes(b, a);
    proof {
        precedes_is_total(a@, b@);
        precedes_is_irreflexive(a@);
    }
    !less && !greater
}

/// The rank of a text: every code point, one higher, and a zero at the end.
/// Texts are thereby ordered by their code points, a text before its
/// extensions, and no text's rank begins another's.
pub open spec fn text_rank(s: Seq<char>) -> Seq<u64> {
    s.map_values(|c: char| (crate::text::code(c) + 1) as u64).push(0)
}

/// Appends the rank of a text.
pub fn push_text(key: &mut Vec<u64>, s: &str)
    ensures
        final(key)@ == old(key)@ + text_rank(s@),
{
    let chars = chars_of(s);
    let ghost start = key@;
    let ghost codes = s@.map_values(|c: char| (crate::text::code(c) + 1) as u64);
    for i in 0..chars.len()
        invariant
            chars@ == s@,
            codes == s@.map_values(|c: char| (crate::text::code(c) + 1) as u64),
            key@ =~= start + codes.take(i as int),
    {
        let n: u64 = code_of(chars[i]);
        assert(codes[i as int] == (crate::text::code(s@[i as int]) + 1) as u64);
        key.push(n + 1);
    }
    key.push(0);
    assert(key@ =~= start + text_rank(s@));
}

fn code_of(c: char) -> (n: u64)
    ensures
        n == crate::text::code(c),
        n < 0x110000,
{
    c as u64
}

/// A text is known by its rank.
pub proof fn text_rank_is_injective(a: Seq<char>, b: Seq<char>)
    requires
        text_rank(a) == text_rank(b),
    ensures
        a == b,
{
    let ra = text_rank(a);
    let rb = text_rank(b);
    assert(ra.len() == a.len() + 1);
    assert(rb.len() == b.len() + 1);
    assert forall|i: int| 0 <= i < a.len() implies a[i] == b[i] by {
        assert(ra[i] == rb[i]);
        assert(ra[i] == (crate::text::code(a[i]) + 1) as u64);
        assert(rb[i] == (crate::text::code(b[i]) + 1) as u64);
        lemma_code_range(a[i]);
        lemma_code_range(b[i]);
    }
    assert(a =~= b);
}

proof fn lemma_code_range(c: char)
    ensures
        0 <= crate::text::code(c) < 0x110000,
{
}

/// What can be put in order: values whose view has a rank.
pub trait Ranked: View + Sized {
    /// The rank of a value, by what is seen of it.
    spec fn rank_of(v: Self::V) -> Seq<u64>;

    /// The rank of the value, as a vector.
    fn rank_key(&self) -> (k: Vec<u64>)
        ensures
            k@ == Self::rank_of(self@),
    ;
}

/// `x` put behind everything in `sorted` that does not come after it.
pub open spec fn placed<T: Ranked>(sorted: Seq<T::V>, x: T::V) -> Seq<T::V>
    decreases sorted.len(),
{
    if sorted.len() == 0 || !precedes(T::rank_of(x), T::rank_of(sorted.last())) {
        sorted.push(x)
    } else {
        placed::<T>(sorted.drop_last(), x).push(sorted.last())
    }
}

/// The values by rank; those of one rank stay in the order in which they stand
/// in `s`.
pub open spec fn stably_sorted<T: Ranked>(s: Seq<T::V>) -> Seq<T::V>
    decreases s.len(),
{
    if s.len() == 0 {
        Seq::empty()
    } else {
        placed::<T>(stably_sorted::<T>(s.drop_last()), s.last())
    }
}

/// Whether no value stands behind one that comes after it.
pub open spec fn in_order<T: Ranked>(s: Seq<T::V>) -> bool {
    forall|i: int, j: int|
        0 <= i < j < s.len() ==> !precedes(
            T::rank_of(#[trigger] s[j]),
            T::rank_of(#[trigger] s[i]),
        )
}

proof fn lemma_placed_position<T: Ranked>(sorted: Seq<T::V>, x: T::V, k: int)
    requires
        0 <= k <= sorted.len(),
        forall|j: int|
            k <= j < sorted.len() ==> precedes(T::rank_of(x), T::rank_of(#[trigger] sorted[j])),
        k > 0 ==> !precedes(T::rank_of(x), T::rank_of(sorted[k - 1])),
    ensures
        placed::<T>(sorted, x) == sorted.insert(k, x),
    decreases sorted.len(),
{
    if k == sorted.len() {
        assert(sorted.insert(k, x) =~= sorted.push(x));
    } else {
        lemma_placed_position::<T>(sorted.drop_last(), x, k);
        assert(sorted.insert(k, x) =~= sorted.drop_last().insert(k, x).push(sorted.last()));
    }
}

/// Sorts by rank; values of one rank stay in their order.
pub fn sort<T: Ranked>(values: Vec<T>) -> (r: Vec<T>)
    ensures
        crate::model::views(r@) == stably_sorted::<T>(crate::model::views(values@)),
{
    let ghost all = crate::model::views(values@);
    let mut rest: Vec<T> = values;
    let mut out: Vec<T> = Vec::new();
    let ghost mut done: int = 0;
    assert(all.skip(0) =~= all);
    assert(stably_sorted::<T>(all.take(0)) =~= Seq::<T::V>::empty());
    assert(crate::model::views(out@) =~= Seq::<T::V>::empty());
    while rest.len() > 0
        invariant
            0 <= done <= all.len(),
            crate::model::views(rest@) == all.skip(done),
            crate::model::views(out@) == stably_sorted::<T>(all.take(done)),
            out@.len() <= done,
        decreases rest.len(),
    {
        let ghost before = rest@;
        assert(crate::model::views(before).len() == all.len() - done);
        let x = rest.remove(0);
        let ghost sorted = crate::model::views(out@);
        let key = x.rank_key();
        let mut k: usize = out.len();
        while k > 0 && key_precedes(&key, &out[k - 1].rank_key())
            invariant
                k <= out@.len(),
                sorted == crate::model::views(out@),
                key@ == T::rank_of(x@),
                forall|j: int|
                    k <= j < sorted.len() ==> precedes(
                        T::rank_of(x@),
                        T::rank_of(#[trigger] sorted[j]),
                    ),
            decreases k,
        {
            assert(sorted[k - 1] == out@[k - 1]@);
            k = k - 1;
        }
        proof {
            if k > 0 {
                assert(sorted[k - 1] == out@[k - 1]@);
            }
            lemma_placed_position::<T>(sorted, x@, k as int);
            assert(crate::model::views(before)[0] == all.skip(done)[0]);
            assert(all.take(done + 1).drop_last() =~= all.take(done));
            assert(all.take(done + 1).last() == x@);
            assert(crate::model::views(rest@) =~= crate::model::views(before).skip(1));
            assert(all.skip(done).skip(1) =~= all.skip(done + 1));
        }
        let ghost x_seen = x@;
        out.insert(k, x);
        assert(crate::model::views(out@) =~= sorted.insert(k as int, x_seen));
        proof {
            done = done + 1;
        }
    }
    assert(all.take(done) =~= all);
    out
}

proof fn lemma_placed_in_order<T: Ranked>(sorted: Seq<T::V>, x: T::V)
    requires
        in_order::<T>(sorted),
    ensures
        in_order::<T>(placed::<T>(sorted, x)),
        placed::<T>(sorted, x).len() == sorted.len() + 1,
        forall|i: int|
            0 <= i < placed::<T>(sorted, x).len() ==> (#[trigger] placed::<T>(sorted, x)[i] == x
                || sorted.contains(placed::<T>(sorted, x)[i])),
    decreases sorted.len(),
{
    let r = placed::<T>(sorted, x);
    if sorted.len() == 0 {
    } else if !precedes(T::rank_of(x), T::rank_of(sorted.last())) {
        assert forall|i: int, j: int| 0 <= i < j < r.len() implies !precedes(
            T::rank_of(#[trigger] r[j]),
            T::rank_of(#[trigger] r[i]),
        ) by {
            if j == sorted.len() && i < sorted.len() - 1 {
                let a = T::rank_of(x);
                let b = T::rank_of(sorted[i]);
                let c = T::rank_of(sorted[sorted.len() - 1]);
                assert(!precedes(c, b));
                precedes_is_total(a, c);
                precedes_is_total(c, b);
                if precedes(a, b) && b != c {
                    precedes_is_transitive(a, b, c);
                }
            }
        }
        assert forall|i: int| 0 <= i < r.len() implies (#[trigger] r[i] == x || sorted.contains(
            r[i],
        )) by {
            if i < sorted.len() {
                assert(sorted[i] == r[i]);
            }
        }
    } else {
        let front = sorted.drop_last();
        let last = sorted.last();
        lemma_placed_in_order::<T>(front, x);
        let p = placed::<T>(front, x);
        assert forall|i: int| 0 <= i < p.len() implies !precedes(
            T::rank_of(last),
            T::rank_of(#[trigger] p[i]),
        ) by {
            if p[i] == x {
                precedes_is_total(T::rank_of(x), T::rank_of(last));
            } else {
                let k = choose|k: int| 0 <= k < front.len() && front[k] == p[i];
                assert(sorted[k] == p[i]);
            }
        }
        assert forall|i: int| 0 <= i < r.len() implies (#[trigger] r[i] == x || sorted.contains(
            r[i],
        )) by {
            if i < p.len() {
                if p[i] != x {
                    let k = choose|k: int| 0 <= k < front.len() && front[k] == p[i];
                    assert(sorted[k] == r[i]);
                }
            } else {
                assert(sorted[sorted.len() - 1] == r[i]);
            }
        }
    }
}

proof fn lemma_placed_multiset<T: Ranked>(sorted: Seq<T::V>, x: T::V)
    ensures
        placed::<T>(sorted, x).to_multiset() =~= sorted.to_multiset().insert(x),
    decreases sorted.len(),
{
    broadcast use vstd::seq_lib::group_to_multiset_ensures;

    if sorted.len() == 0 || !precedes(T::rank_of(x), T::rank_of(sorted.last())) {
    } else {
        lemma_placed_multiset::<T>(sorted.drop_last(), x);
        assert(sorted =~= sorted.drop_last().push(sorted.last()));
    }
}

/// Sorting puts the values in order and neither drops nor adds any.
pub proof fn sorting_keeps_the_values<T: Ranked>(s: Seq<T::V>)
    ensures
        in_order::<T>(stably_sorted::<T>(s)),
        stably_sorted::<T>(s).len() == s.len(),
        stably_sorted::<T>(s).to_multiset() == s.to_multiset(),
    decreases s.len(),
{
    broadcast use vstd::seq_lib::group_to_multiset_ensures;

    if s.len() == 0 {
        assert(s =~= Seq::<T::V>::empty());
    } else {
        sorting_keeps_the_values::<T>(s.drop_last());
        lemma_placed_in_order::<T>(stably_sorted::<T>(s.drop_last()), s.last());
        lemma_placed_multiset::<T>(stably_sorted::<T>(s.drop_last()), s.last());
        assert(s =~= s.drop_last().push(s.last()));
    }
}

/// What stands in a sorted list stood in the list before, and the other way
/// round.
pub proof fn sorting_keeps_membership<T: Ranked>(s: Seq<T::V>, x: T::V)
    ensures
        stably_sorted::<T>(s).contains(x) == s.contains(x),
{
    broadcast use vstd::seq_lib::group_to_multiset_ensures;

    sorting_keeps_the_values::<T>(s);
    assert(s.contains(x) == (s.to_multiset().count(x) > 0));
    assert(stably_sorted::<T>(s).contains(x) == (stably_sorted::<T>(s).to_multiset().count(x) > 0));
}

proof fn lemma_placed_somewhere<T: Ranked>(sorted: Seq<T::V>, x: T::V) -> (k: int)
    ensures
        0 <= k <= sorted.len(),
        placed::<T>(sorted, x) == sorted.insert(k, x),
    decreases sorted.len(),
{
    if sorted.len() == 0 || !precedes(T::rank_of(x), T::rank_of(sorted.last())) {
        assert(sorted.insert(sorted.len() as int, x) =~= sorted.push(x));
        sorted.len() as int
    } else {
        let k = lemma_placed_somewhere::<T>(sorted.drop_last(), x);
        assert(sorted.insert(k, x) =~= sorted.drop_last().insert(k, x).push(sorted.last()));
        k
    }
}

/// A sorted list holds the values of the list before, each from a position of
/// its own.
pub proof fn sorting_permutes<T: Ranked>(s: Seq<T::V>) -> (p: Seq<int>)
    ensures
        p.len() == s.len(),
        stably_sorted::<T>(s).len() == s.len(),
        p.no_duplicates(),
        forall|i: int|
            0 <= i < s.len() ==> 0 <= #[trigger] p[i] < s.len() && stably_sorted::<T>(s)[i]
                == s[p[i]],
    decreases s.len(),
{
    if s.len() == 0 {
        Seq::empty()
    } else {
        let front = s.drop_last();
        let q = sorting_permutes::<T>(front);
        let k = lemma_placed_somewhere::<T>(stably_sorted::<T>(front), s.last());
        let p = q.insert(k, s.len() - 1);
        assert forall|i: int| 0 <= i < s.len() implies 0 <= #[trigger] p[i] < s.len()
            && stably_sorted::<T>(s)[i] == s[p[i]] by {
            if i < k {
                assert(p[i] == q[i]);
            } else if i > k {
                assert(p[i] == q[i - 1]);
            }
        }
        assert forall|i: int, j: int| 0 <= i < p.len() && 0 <= j < p.len() && i != j implies p[i]
            != p[j] by {
            let a = if i < k {
                i
            } else {
                i - 1
            };
            let b = if j < k {
                j
            } else {
                j - 1
            };
            if i != k {
                assert(p[i] == q[a]);
            }
            if j != k {
                assert(p[j] == q[b]);
            }
        }
        p
    }
}

proof fn lemma_placed_alike<T: Ranked>(a: Seq<T::V>, x: T::V, b: Seq<T::V>, y: T::V) -> (k: int)
    requires
        a.len() == b.len(),
        T::rank_of(x) == T::rank_of(y),
        forall|i: int| 0 <= i < a.len() ==> T::rank_of(#[trigger] a[i]) == T::rank_of(b[i]),
    ensures
        0 <= k <= a.len(),
        placed::<T>(a, x) == a.insert(k, x),
        placed::<T>(b, y) == b.insert(k, y),
    decreases a.len(),
{
    if a.len() == 0 || !precedes(T::rank_of(x), T::rank_of(a.last())) {
        assert(a.len() > 0 ==> T::rank_of(a[a.len() - 1]) == T::rank_of(b[a.len() - 1]));
        assert(a.insert(a.len() as int, x) =~= a.push(x));
        assert(b.insert(b.len() as int, y) =~= b.push(y));
        a.len() as int
    } else {
        assert(T::rank_of(a[a.len() - 1]) == T::rank_of(b[a.len() - 1]));
        assert forall|i: int| 0 <= i < a.len() - 1 implies T::rank_of(
            #[trigger] a.drop_last()[i],
        ) == T::rank_of(b.drop_last()[i]) by {
            assert(T::rank_of(a[i]) == T::rank_of(b[i]));
        }
        let k = lemma_placed_alike::<T>(a.drop_last(), x, b.drop_last(), y);
        assert(a.insert(k, x) =~= a.drop_last().insert(k, x).push(a.last()));
        assert(b.insert(k, y) =~= b.drop_last().insert(k, y).push(b.last()));
        k
    }
}

/// Sorting goes by ranks alone: two lists with the same ranks are sorted by the
/// same moves.
pub proof fn sorting_goes_by_rank<T: Ranked>(s: Seq<T::V>, t: Seq<T::V>) -> (p: Seq<int>)
    requires
        s.len() == t.len(),
        forall|i: int| 0 <= i < s.len() ==> T::rank_of(#[trigger] s[i]) == T::rank_of(t[i]),
    ensures
        p.len() == s.len(),
        stably_sorted::<T>(s).len() == s.len(),
        stably_sorted::<T>(t).len() == s.len(),
        forall|i: int|
            0 <= i < s.len() ==> 0 <= #[trigger] p[i] < s.len() && stably_sorted::<T>(s)[i]
                == s[p[i]] && stably_sorted::<T>(t)[i] == t[p[i]],
    decreases s.len(),
{
    if s.len() == 0 {
        Seq::empty()
    } else {
        let front = s.drop_last();
        let other = t.drop_last();
        assert forall|i: int| 0 <= i < front.len() implies T::rank_of(#[trigger] front[i])
            == T::rank_of(other[i]) by {
            assert(T::rank_of(s[i]) == T::rank_of(t[i]));
        }
        assert(T::rank_of(s[s.len() - 1]) == T::rank_of(t[s.len() - 1]));
        let q = sorting_goes_by_rank::<T>(front, other);
        let a = stably_sorted::<T>(front);
        let b = stably_sorted::<T>(other);
        assert forall|i: int| 0 <= i < a.len() implies T::rank_of(#[trigger] a[i]) == T::rank_of(
            b[i],
        ) by {
            assert(0 <= q[i] < front.len());
            assert(T::rank_of(front[q[i]]) == T::rank_of(other[q[i]]));
        }
        let k = lemma_placed_alike::<T>(a, s.last(), b, t.last());
        let p = q.insert(k, s.len() - 1);
        assert forall|i: int| 0 <= i < s.len() implies 0 <= #[trigger] p[i] < s.len()
            && stably_sorted::<T>(s)[i] == s[p[i]] && stably_sorted::<T>(t)[i] == t[p[i]] by {
            if i < k {
                assert(p[i] == q[i]);
            } else if i > k {
                assert(p[i] == q[i - 1]);
            }
        }
        p
    }
}

/// Whether a value has the rank `rank`.
pub open spec fn ranked_at<T: Ranked>(rank: Seq<u64>) -> spec_fn(T::V) -> bool {
    |x: T::V| T::rank_of(x) == rank
}

/// The values of one rank, in their order.
pub open spec fn of_rank<T: Ranked>(s: Seq<T::V>, rank: Seq<u64>) -> Seq<T::V> {
    s.filter(ranked_at::<T>(rank))
}

/// What the last value adds to a selection.
pub proof fn filter_push<T>(s: Seq<T>, x: T, p: spec_fn(T) -> bool)
    ensures
        s.push(x).filter(p) == (if p(x) {
            s.filter(p).push(x)
        } else {
            s.filter(p)
        }),
{
    reveal(Seq::filter);
    assert(s.push(x).drop_last() =~= s);
}

proof fn lemma_placed_stable<T: Ranked>(sorted: Seq<T::V>, x: T::V, rank: Seq<u64>)
    requires
        in_order::<T>(sorted),
    ensures
        of_rank::<T>(placed::<T>(sorted, x), rank) == of_rank::<T>(sorted.push(x), rank),
    decreases sorted.len(),
{
    let p = ranked_at::<T>(rank);
    if sorted.len() == 0 || !precedes(T::rank_of(x), T::rank_of(sorted.last())) {
    } else {
        let front = sorted.drop_last();
        let last = sorted.last();
        lemma_placed_stable::<T>(front, x, rank);
        precedes_is_irreflexive(T::rank_of(x));
        filter_push(placed::<T>(front, x), last, p);
        filter_push(sorted, x, p);
        filter_push(front, x, p);
        filter_push(front, last, p);
        assert(sorted =~= front.push(last));
    }
}

/// Sorting is stable: the values of one rank keep their order.
pub proof fn sorting_is_stable<T: Ranked>(s: Seq<T::V>, rank: Seq<u64>)
    ensures
        of_rank::<T>(stably_sorted::<T>(s), rank) == of_rank::<T>(s, rank),
    decreases s.len(),
{
    if s.len() == 0 {
        assert(s =~= Seq::<T::V>::empty());
    } else {
        let p = ranked_at::<T>(rank);
        let front = s.drop_last();
        sorting_is_stable::<T>(front, rank);
        sorting_keeps_the_values::<T>(front);
        lemma_placed_stable::<T>(stably_sorted::<T>(front), s.last(), rank);
        filter_push(stably_sorted::<T>(front), s.last(), p);
        filter_push(front, s.last(), p);
        assert(s =~= front.push(s.last()));
    }
}

impl Ranked for String {
    open spec fn rank_of(v: Seq<char>) -> Seq<u64> {
        text_rank(v)
    }

    fn rank_key(&self) -> (k: Vec<u64>) {
        let mut k: Vec<u64> = Vec::new();
        push_text(&mut k, self.as_str());
        assert(k@ =~= text_rank(self@));
        k
    }
}

impl Ranked for u64 {
    open spec fn rank_of(v: u64) -> Seq<u64> {
        seq![v]
    }

    fn rank_key(&self) -> (k: Vec<u64>) {
        let mut k: Vec<u64> = Vec::new();
        k.push(*self);
        assert(k@ =~= seq![*self]);
        k
    }
}

/// Ranks that begin alike are ordered by how they go on.
pub proof fn common_front_does_not_count(front: Seq<u64>, a: Seq<u64>, b: Seq<u64>)
    ensures
        precedes(front + a, front + b) == precedes(a, b),
    decreases front.len(),
{
    if front.len() == 0 {
        assert(front + a =~= a);
        assert(front + b =~= b);
    } else {
        common_front_does_not_count(front.drop_first(), a, b);
        assert((front + a).drop_first() =~= front.drop_first() + a);
        assert((front + b).drop_first() =~= front.drop_first() + b);
    }
}

/// A text whose rank stands in front is known by it: ranks that begin with the
/// ranks of two texts are the same only where the texts are, and what follows.
pub proof fn leading_texts_are_told_apart(
    s: Seq<char>,
    a: Seq<u64>,
    t: Seq<char>,
    b: Seq<u64>,
)
    requires
        text_rank(s) + a == text_rank(t) + b,
    ensures
        s == t,
        a == b,
    decreases s.len(),
{
    let x = text_rank(s) + a;
    let y = text_rank(t) + b;
    if s.len() > 0 {
        assert(x[0] == (crate::text::code(s[0]) + 1) as u64);
        lemma_code_range(s[0]);
    } else {
        assert(x[0] == 0);
    }
    if t.len() > 0 {
        assert(y[0] == (crate::text::code(t[0]) + 1) as u64);
        lemma_code_range(t[0]);
    } else {
        assert(y[0] == 0);
    }
    if s.len() > 0 {
        let p = s.drop_first();
        let q = t.drop_first();
        assert(x.drop_first() =~= text_rank(p) + a);
        assert(y.drop_first() =~= text_rank(q) + b);
        leading_texts_are_told_apart(p, a, q, b);
        assert(s =~= seq![s[0]] + p);
        assert(t =~= seq![t[0]] + q);
    } else {
        assert(s =~= t);
        assert(x.drop_first() =~= a);
        assert(y.drop_first() =~= b);
    }
}

/// The rank of an optional text: none comes first.
pub open spec fn optional_text_rank(s: Option<Seq<char>>) -> Seq<u64> {
    match s {
        Some(text) => seq![1u64] + text_rank(text),
        None => seq![0u64],
    }
}

/// Appends the rank of an optional text.
pub fn push_optional_text(key: &mut Vec<u64>, s: &Option<String>)
    ensures
        final(key)@ == old(key)@ + optional_text_rank(crate::model::seen(*s)),
{
    let ghost start = key@;
    match s {
        Some(text) => {
            key.push(1);
            push_text(key, text.as_str());
            assert(key@ =~= start + (seq![1u64] + text_rank(text@)));
        },
        None => {
            key.push(0);
            assert(key@ =~= start + seq![0u64]);
        },
    }
}

/// The rank of an optional number: none comes first.
pub open spec fn optional_number_rank(n: Option<u32>) -> Seq<u64> {
    match n {
        Some(number) => seq![1u64, number as u64],
        None => seq![0u64],
    }
}

/// Appends the rank of an optional number.
pub fn push_optional_number(key: &mut Vec<u64>, n: Option<u32>)
    ensures
        final(key)@ == old(key)@ + optional_number_rank(n),
{
    let ghost start = key@;
    match n {
        Some(number) => {
            key.push(1);
            key.push(number as u64);
            assert(key@ =~= start + seq![1u64, number as u64]);
        },
        None => {
            key.push(0);
            assert(key@ =~= start + seq![0u64]);
        },
    }
}

/// Ranks that are alike up to some place are ordered by what stands there: the
/// smaller number comes first, and a rank that has ended comes before one that
/// goes on.
pub proof fn the_first_difference_decides(a: Seq<u64>, b: Seq<u64>, k: int)
    requires
        0 <= k <= a.len(),
        k <= b.len(),
        forall|i: int| 0 <= i < k ==> #[trigger] a[i] == b[i],
    ensures
        k < a.len() && k < b.len() && a[k] < b[k] ==> precedes(a, b) && !precedes(b, a),
        k == a.len() && k < b.len() ==> precedes(a, b) && !precedes(b, a),
        k == a.len() && k == b.len() ==> !precedes(a, b) && !precedes(b, a),
    decreases k,
{
    if k > 0 {
        let x = a.drop_first();
        let y = b.drop_first();
        assert(a[0] == b[0]);
        assert forall|i: int| 0 <= i < k - 1 implies #[trigger] x[i] == y[i] by {
            assert(x[i] == a[i + 1] && y[i] == b[i + 1]);
        }
        the_first_difference_decides(x, y, k - 1);
        if k < a.len() && k < b.len() {
            assert(x[k - 1] == a[k] && y[k - 1] == b[k]);
        }
    }
}

/// Whether a text comes before another one: where they first differ it has the
/// lower code point, or it has ended.
pub open spec fn text_before(s: Seq<char>, t: Seq<char>) -> bool {
    exists|k: int| #[trigger] differ_first_at(s, t, k)
}

/// Whether two texts are alike up to `k`, where the first has the lower code
/// point, or has ended while the other goes on.
pub open spec fn differ_first_at(s: Seq<char>, t: Seq<char>, k: int) -> bool {
    &&& 0 <= k <= s.len()
    &&& k < t.len()
    &&& forall|i: int| 0 <= i < k ==> #[trigger] s[i] == t[i]
    &&& k == s.len() || (s[k] as int) < (t[k] as int)
}

/// Ranks that begin with texts are ordered by the texts, and where those are the
/// same by what follows.
pub proof fn leading_texts_decide(s: Seq<char>, x: Seq<u64>, t: Seq<char>, y: Seq<u64>)
    ensures
        text_before(s, t) ==> precedes(text_rank(s) + x, text_rank(t) + y) && !precedes(
            text_rank(t) + y,
            text_rank(s) + x,
        ),
        s == t ==> precedes(text_rank(s) + x, text_rank(t) + y) == precedes(x, y),
{
    if s == t {
        common_front_does_not_count(text_rank(s), x, y);
    }
    if text_before(s, t) {
        let k = choose|k: int| #[trigger] differ_first_at(s, t, k);
        let a = text_rank(s) + x;
        let b = text_rank(t) + y;
        assert forall|i: int| 0 <= i < k implies #[trigger] a[i] == b[i] by {
            assert(s[i] == t[i]);
            assert(text_rank(s)[i] == text_rank(t)[i]);
        }
        lemma_code_range(t[k]);
        assert(b[k] == (crate::text::code(t[k]) + 1) as u64);
        if k < s.len() {
            lemma_code_range(s[k]);
            assert(a[k] == (crate::text::code(s[k]) + 1) as u64);
        } else {
            assert(a[k] == 0);
        }
        the_first_difference_decides(a, b, k);
    }
}

/// Of two texts one comes before the other, unless they are the same; never do
/// both.
pub proof fn texts_are_totally_ordered(s: Seq<char>, t: Seq<char>)
    ensures
        s == t || text_before(s, t) || text_before(t, s),
        !(text_before(s, t) && text_before(t, s)),
        !text_before(s, s),
{
    let none = Seq::<u64>::empty();
    leading_texts_decide(s, none, t, none);
    leading_texts_decide(t, none, s, none);
    leading_texts_decide(s, none, s, none);
    precedes_is_irreflexive(text_rank(s) + none);
    lemma_some_difference(s, t, 0);
}

proof fn lemma_some_difference(s: Seq<char>, t: Seq<char>, k: int)
    requires
        0 <= k <= s.len(),
        k <= t.len(),
        forall|i: int| 0 <= i < k ==> #[trigger] s[i] == t[i],
    ensures
        s == t || text_before(s, t) || text_before(t, s),
    decreases s.len() - k,
{
    if k == s.len() && k == t.len() {
        assert(s =~= t);
    } else if k == s.len() {
        assert(differ_first_at(s, t, k));
    } else if k == t.len() {
        assert(differ_first_at(t, s, k));
    } else if s[k] == t[k] {
        lemma_some_difference(s, t, k + 1);
    } else if (s[k] as int) < (t[k] as int) {
        assert(differ_first_at(s, t, k));
    } else {
        assert(s[k] as int != t[k] as int);
        assert(differ_first_at(t, s, k));
    }
}

/// Optional values come in this order: none first, then by the value.
pub proof fn absent_values_come_first(
    s: Seq<char>,
    t: Seq<char>,
    m: u32,
    n: u32,
    x: Seq<u64>,
    y: Seq<u64>,
)
    ensures
        precedes(optional_text_rank(None) + x, optional_text_rank(Some(s)) + y),
        text_before(s, t) ==> precedes(
            optional_text_rank(Some(s)) + x,
            optional_text_rank(Some(t)) + y,
        ),
        precedes(optional_text_rank(Some(s)) + x, optional_text_rank(Some(s)) + y) == precedes(x, y),
        precedes(optional_text_rank(None) + x, optional_text_rank(None) + y) == precedes(x, y),
        precedes(optional_number_rank(None) + x, optional_number_rank(Some(n)) + y),
        m < n ==> precedes(
            optional_number_rank(Some(m)) + x,
            optional_number_rank(Some(n)) + y,
        ),
        precedes(optional_number_rank(Some(n)) + x, optional_number_rank(Some(n)) + y) == precedes(
            x,
            y,
        ),
        precedes(optional_number_rank(None) + x, optional_number_rank(None) + y) == precedes(x, y),
{
    common_front_does_not_count(optional_text_rank(Some(s)), x, y);
    common_front_does_not_count(optional_text_rank(None), x, y);
    common_front_does_not_count(optional_number_rank(Some(n)), x, y);
    common_front_does_not_count(optional_number_rank(None), x, y);
    the_first_difference_decides(optional_text_rank(None) + x, optional_text_rank(Some(s)) + y, 0);
    the_first_difference_decides(
        optional_number_rank(None) + x,
        optional_number_rank(Some(n)) + y,
        0,
    );
    the_first_difference_decides(
        optional_number_rank(Some(m)) + x,
        optional_number_rank(Some(n)) + y,
        1,
    );
    let one = seq![1u64];
    leading_texts_decide(s, x, t, y);
    common_front_does_not_count(one, text_rank(s) + x, text_rank(t) + y);
    assert(optional_text_rank(Some(s)) + x =~= one + (text_rank(s) + x));
    assert(optional_text_rank(Some(t)) + y =~= one + (text_rank(t) + y));
}

} // verus!
