//! Lines about what one set has and another has not.

use crate::collections::SortedSet;
use crate::order::{ascending, Key};
use crate::text::{lemma_no_line, line_if, push_line, texts};
use vstd::prelude::*;
use vstd::string::*;

verus! {

/// An element that reports show.
pub trait Shown: Key {
    /// What the element is shown as.
    spec fn shown(model: Self::Model) -> Seq<char>;

    /// What the element is shown as.
    fn show(&self) -> (r: String)
        ensures
            r@ == Self::shown(self.model()),
    ;
}

/// One line for each of `list` that `other` does not have.
pub open spec fn missing_lines<K: Shown>(
    head: Seq<char>,
    list: Seq<K::Model>,
    other: Set<K::Model>,
) -> Seq<Seq<char>>
    decreases list.len(),
{
    if list.len() == 0 {
        Seq::empty()
    } else {
        missing_lines::<K>(head, list.drop_last(), other) + line_if(
            !other.contains(list.last()),
            head + K::shown(list.last()),
        )
    }
}

/// Appends one line for each element that `other` does not have.
pub fn push_missing<K: Shown>(
    out: &mut Vec<String>,
    head: &str,
    set: &SortedSet<K>,
    other: &SortedSet<K>,
)
    ensures
        texts(final(out)@) == texts(old(out)@) + missing_lines::<K>(
            head@,
            ascending::<K>(set@),
            other@,
        ),
        ascending::<K>(set@).to_set() == set@,
{
    let n: usize = set.len();
    let ghost start = texts(out@);
    let ghost all = set.seq();
    let mut i: usize = 0;
    assert(start + missing_lines::<K>(head@, all.take(0), other@) =~= start);
    while i < n
        invariant
            i <= n,
            n == all.len(),
            all == set.seq(),
            texts(out@) == start + missing_lines::<K>(head@, all.take(i as int), other@),
        decreases n - i,
    {
        let x = set.at(i);
        assert(all.take(i + 1).drop_last() =~= all.take(i as int));
        assert(all.take(i + 1).last() == x.model());
        let ghost so_far = missing_lines::<K>(head@, all.take(i as int), other@);
        let ghost line = head@ + K::shown(x.model());
        if !other.contains(x) {
            let mut l = head.to_string();
            l.append(x.show().as_str());
            push_line(out, l);
        } else {
            proof {
                lemma_no_line(texts(out@), line);
            }
        }
        assert(texts(out@) == start + so_far + line_if(!other@.contains(x.model()), line));
        assert(texts(out@) =~= start + missing_lines::<K>(head@, all.take(i + 1), other@));
        i += 1;
    }
    assert(all.take(n as int) =~= all);
}

/// There are no lines exactly if `other` has everything.
pub proof fn lemma_no_missing<K: Shown>(
    head: Seq<char>,
    list: Seq<K::Model>,
    other: Set<K::Model>,
)
    ensures
        missing_lines::<K>(head, list, other).len() == 0 <==> list.to_set().subset_of(other),
    decreases list.len(),
{
    if list.len() > 0 {
        let d = list.drop_last();
        lemma_no_missing::<K>(head, d, other);
        assert(list =~= d.push(list.last()));
        assert forall|x: K::Model| list.to_set().contains(x) <==> d.to_set().contains(x) || x
            == list.last() by {
            crate::seqs::lemma_push_contains(d, list.last(), x);
        }
        if missing_lines::<K>(head, list, other).len() == 0 {
            assert(list.to_set().subset_of(other));
        } else if list.to_set().subset_of(other) {
            assert(list.to_set().contains(list.last()));
            assert(d.to_set().subset_of(other));
        }
    }
}

/// The lines about what only one of both sets has.
pub open spec fn one_sided_lines<K: Shown>(
    own_head: Seq<char>,
    other_head: Seq<char>,
    a: Set<K::Model>,
    b: Set<K::Model>,
) -> Seq<Seq<char>> {
    missing_lines::<K>(own_head, ascending::<K>(a), b) + missing_lines::<K>(
        other_head,
        ascending::<K>(b),
        a,
    )
}

/// Appends the lines about what only one of both sets has; there are none exactly if the sets are
/// the same.
pub fn push_one_sided<K: Shown>(
    out: &mut Vec<String>,
    own_head: &str,
    other_head: &str,
    a: &SortedSet<K>,
    b: &SortedSet<K>,
)
    ensures
        texts(final(out)@) == texts(old(out)@) + one_sided_lines::<K>(
            own_head@,
            other_head@,
            a@,
            b@,
        ),
        one_sided_lines::<K>(own_head@, other_head@, a@, b@).len() == 0 <==> a@ == b@,
{
    let ghost start = texts(out@);
    push_missing(out, own_head, a, b);
    push_missing(out, other_head, b, a);
    proof {
        crate::seqs::lemma_add_assoc(
            start,
            missing_lines::<K>(own_head@, ascending::<K>(a@), b@),
            missing_lines::<K>(other_head@, ascending::<K>(b@), a@),
        );
        lemma_no_missing::<K>(own_head@, ascending::<K>(a@), b@);
        lemma_no_missing::<K>(other_head@, ascending::<K>(b@), a@);
        if a@.subset_of(b@) && b@.subset_of(a@) {
            assert(a@ =~= b@);
        }
    }
}

} // verus!
