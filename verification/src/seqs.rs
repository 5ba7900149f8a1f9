//! Lists that are built element by element.

use vstd::prelude::*;

verus! {

/// The elements that were kept, with one more looked at.
pub proof fn lemma_filter_take<A>(s: Seq<A>, keep: spec_fn(A) -> bool, i: int)
    requires
        0 <= i < s.len(),
    ensures
        s.take(i + 1).filter(keep) == if keep(s[i]) {
            s.take(i).filter(keep).push(s[i])
        } else {
            s.take(i).filter(keep)
        },
{
    reveal(Seq::filter);
    assert(s.take(i + 1).drop_last() =~= s.take(i));
    assert(s.take(i + 1).last() == s[i]);
}

/// Nothing looked at yet.
pub proof fn lemma_filter_none<A>(s: Seq<A>, keep: spec_fn(A) -> bool)
    ensures
        s.take(0).filter(keep) == Seq::<A>::empty(),
{
    reveal(Seq::filter);
    assert(s.take(0).len() == 0);
}

/// Everything looked at.
pub proof fn lemma_take_all<A>(s: Seq<A>)
    ensures
        s.take(s.len() as int) == s,
{
    assert(s.take(s.len() as int) =~= s);
}

/// What is kept are the elements that the test accepts.
pub proof fn lemma_filter_contains<A>(s: Seq<A>, keep: spec_fn(A) -> bool, x: A)
    ensures
        s.filter(keep).contains(x) <==> s.contains(x) && keep(x),
    decreases s.len(),
{
    reveal(Seq::filter);
    if s.len() > 0 {
        let d = s.drop_last();
        lemma_filter_contains(d, keep, x);
        assert(s =~= d.push(s.last()));
        lemma_push_contains(d, s.last(), x);
        if keep(s.last()) {
            lemma_push_contains(d.filter(keep), s.last(), x);
        }
    }
}

/// A list with one more element holds that element and what it held before.
pub proof fn lemma_push_contains<A>(s: Seq<A>, y: A, x: A)
    ensures
        s.push(y).contains(x) <==> s.contains(x) || x == y,
{
    let t = s.push(y);
    assert(t[s.len() as int] == y);
    if s.contains(x) {
        let i = choose|i: int| 0 <= i < s.len() && s[i] == x;
        assert(t[i] == x);
    }
    if t.contains(x) && x != y {
        let i = choose|i: int| 0 <= i < t.len() && t[i] == x;
        assert(s[i] == x);
    }
}

/// Joining lists is associative.
pub proof fn lemma_add_assoc<A>(a: Seq<A>, b: Seq<A>, c: Seq<A>)
    ensures
        a + b + c == a + (b + c),
{
    assert(a + b + c =~= a + (b + c));
}

/// The first position among the first `n` whose element the test accepts.
pub open spec fn first_among<A>(s: Seq<A>, test: spec_fn(A) -> bool, n: int) -> Option<int>
    decreases n,
{
    if n <= 0 {
        None
    } else {
        match first_among(s, test, n - 1) {
            Some(i) => Some(i),
            None => if test(s[n - 1]) {
                Some(n - 1)
            } else {
                None
            },
        }
    }
}

/// The first position whose element the test accepts.
pub open spec fn first_where<A>(s: Seq<A>, test: spec_fn(A) -> bool) -> Option<int> {
    first_among(s, test, s.len() as int)
}

/// A position that was found is in range, accepted and the first such, and where none was found,
/// none is accepted.
pub proof fn lemma_first_among<A>(s: Seq<A>, test: spec_fn(A) -> bool, n: int)
    ensures
        first_among(s, test, n) matches Some(i) ==> 0 <= i < n && test(s[i]) && forall|j: int|
            0 <= j < i ==> !test(#[trigger] s[j]),
        first_among(s, test, n) is None ==> forall|j: int| 0 <= j < n ==> !test(#[trigger] s[j]),
    decreases n,
{
    if n > 0 {
        lemma_first_among(s, test, n - 1);
    }
}

/// A position that is accepted while none before it is, is the first one.
pub proof fn lemma_first_found<A>(s: Seq<A>, test: spec_fn(A) -> bool, i: int)
    requires
        0 <= i < s.len(),
        first_among(s, test, i) is None,
        test(s[i]),
    ensures
        first_where(s, test) == Some(i),
{
    lemma_first_stays(s, test, i + 1, s.len() as int);
}

proof fn lemma_first_stays<A>(s: Seq<A>, test: spec_fn(A) -> bool, n: int, m: int)
    requires
        n <= m,
        first_among(s, test, n) is Some,
    ensures
        first_among(s, test, m) == first_among(s, test, n),
    decreases m - n,
{
    if n < m {
        lemma_first_stays(s, test, n, m - 1);
    }
}

} // verus!
