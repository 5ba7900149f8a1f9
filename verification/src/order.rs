//! Strict total orders, as the sorted collections need them.

use vstd::prelude::*;
use vstd::string::*;

verus! {

/// A value that is ordered, found and compared by its model.
pub trait Key: Sized {
    /// What the value stands for.
    type Model;

    /// The model of this value.
    spec fn model(&self) -> Self::Model;

    /// The strict order on models.
    spec fn lt(a: Self::Model, b: Self::Model) -> bool;

    /// Nothing comes before itself.
    proof fn lt_irreflexive(a: Self::Model)
        ensures
            !Self::lt(a, a),
    ;

    /// The order is transitive.
    proof fn lt_transitive(a: Self::Model, b: Self::Model, c: Self::Model)
        requires
            Self::lt(a, b),
            Self::lt(b, c),
        ensures
            Self::lt(a, c),
    ;

    /// Two different models are ordered one way or the other.
    proof fn lt_connected(a: Self::Model, b: Self::Model)
        requires
            !Self::lt(a, b),
            !Self::lt(b, a),
        ensures
            a == b,
    ;

    /// Whether this value comes strictly before `other`.
    fn is_less(&self, other: &Self) -> (r: bool)
        ensures
            r == Self::lt(self.model(), other.model()),
    ;
}

/// `s` ascends without repetition.
pub open spec fn increasing<K: Key>(s: Seq<K::Model>) -> bool {
    forall|i: int, j: int| 0 <= i < j < s.len() ==> K::lt(#[trigger] s[i], #[trigger] s[j])
}

/// The models of `s`, in order.
pub open spec fn models<K: Key>(s: Seq<K>) -> Seq<K::Model> {
    s.map_values(|k: K| k.model())
}

/// An ascending sequence is determined by the set of its elements.
pub proof fn lemma_increasing_unique<K: Key>(a: Seq<K::Model>, b: Seq<K::Model>)
    requires
        increasing::<K>(a),
        increasing::<K>(b),
        forall|x: K::Model| a.contains(x) <==> b.contains(x),
    ensures
        a == b,
    decreases a.len(),
{
    if a.len() == 0 {
        if b.len() > 0 {
            assert(b.contains(b[0]));
        }
        assert(a =~= b);
    } else {
        assert(a.contains(a[0]));
        let j = choose|j: int| 0 <= j < b.len() && b[j] == a[0];
        if j > 0 {
            assert(b.contains(b[0]));
            let i = choose|i: int| 0 <= i < a.len() && a[i] == b[0];
            if i == 0 {
                K::lt_irreflexive(a[0]);
                assert(K::lt(b[0], b[j]));
            } else {
                assert(K::lt(a[0], a[i]));
                assert(K::lt(b[0], b[j]));
                K::lt_transitive(a[0], b[0], a[0]);
                K::lt_irreflexive(a[0]);
            }
        }
        assert(a[0] == b[0]);
        let ta = a.drop_first();
        let tb = b.drop_first();
        assert forall|x: K::Model| ta.contains(x) <==> tb.contains(x) by {
            if ta.contains(x) {
                let i = choose|i: int| 0 <= i < ta.len() && ta[i] == x;
                assert(a[i + 1] == x);
                assert(a.contains(x));
                let k = choose|k: int| 0 <= k < b.len() && b[k] == x;
                if k == 0 {
                    assert(K::lt(a[0], a[i + 1]));
                    K::lt_irreflexive(x);
                }
                assert(tb[k - 1] == x);
            }
            if tb.contains(x) {
                let i = choose|i: int| 0 <= i < tb.len() && tb[i] == x;
                assert(b[i + 1] == x);
                assert(b.contains(x));
                let k = choose|k: int| 0 <= k < a.len() && a[k] == x;
                if k == 0 {
                    assert(K::lt(b[0], b[i + 1]));
                    K::lt_irreflexive(x);
                }
                assert(ta[k - 1] == x);
            }
        }
        assert forall|i: int, j: int| 0 <= i < j < ta.len() implies K::lt(
            #[trigger] ta[i],
            #[trigger] ta[j],
        ) by {
            assert(K::lt(a[i + 1], a[j + 1]));
        }
        assert forall|i: int, j: int| 0 <= i < j < tb.len() implies K::lt(
            #[trigger] tb[i],
            #[trigger] tb[j],
        ) by {
            assert(K::lt(b[i + 1], b[j + 1]));
        }
        lemma_increasing_unique::<K>(ta, tb);
        assert(a =~= seq![a[0]] + ta);
        assert(b =~= seq![b[0]] + tb);
    }
}

impl Key for usize {
    type Model = usize;

    open spec fn model(&self) -> usize {
        *self
    }

    open spec fn lt(a: usize, b: usize) -> bool {
        a < b
    }

    proof fn lt_irreflexive(a: usize) {
    }

    proof fn lt_transitive(a: usize, b: usize, c: usize) {
    }

    proof fn lt_connected(a: usize, b: usize) {
    }

    fn is_less(&self, other: &usize) -> (r: bool) {
        *self < *other
    }
}

impl Key for u128 {
    type Model = u128;

    open spec fn model(&self) -> u128 {
        *self
    }

    open spec fn lt(a: u128, b: u128) -> bool {
        a < b
    }

    proof fn lt_irreflexive(a: u128) {
    }

    proof fn lt_transitive(a: u128, b: u128, c: u128) {
    }

    proof fn lt_connected(a: u128, b: u128) {
    }

    fn is_less(&self, other: &u128) -> (r: bool) {
        *self < *other
    }
}

impl Key for u8 {
    type Model = u8;

    open spec fn model(&self) -> u8 {
        *self
    }

    open spec fn lt(a: u8, b: u8) -> bool {
        a < b
    }

    proof fn lt_irreflexive(a: u8) {
    }

    proof fn lt_transitive(a: u8, b: u8, c: u8) {
    }

    proof fn lt_connected(a: u8, b: u8) {
    }

    fn is_less(&self, other: &u8) -> (r: bool) {
        *self < *other
    }
}

/// The lexicographic order that the order of the elements gives.
pub open spec fn lex_lt<K: Key>(a: Seq<K::Model>, b: Seq<K::Model>) -> bool
    decreases a.len(),
{
    if b.len() == 0 {
        false
    } else if a.len() == 0 {
        true
    } else {
        K::lt(a[0], b[0]) || (a[0] == b[0] && lex_lt::<K>(a.drop_first(), b.drop_first()))
    }
}

proof fn lemma_lex_irreflexive<K: Key>(a: Seq<K::Model>)
    ensures
        !lex_lt::<K>(a, a),
    decreases a.len(),
{
    if a.len() > 0 {
        K::lt_irreflexive(a[0]);
        lemma_lex_irreflexive::<K>(a.drop_first());
    }
}

proof fn lemma_lex_transitive<K: Key>(a: Seq<K::Model>, b: Seq<K::Model>, c: Seq<K::Model>)
    requires
        lex_lt::<K>(a, b),
        lex_lt::<K>(b, c),
    ensures
        lex_lt::<K>(a, c),
    decreases a.len(),
{
    if a.len() > 0 {
        if K::lt(a[0], b[0]) && K::lt(b[0], c[0]) {
            K::lt_transitive(a[0], b[0], c[0]);
        } else if !K::lt(a[0], b[0]) && !K::lt(b[0], c[0]) {
            lemma_lex_transitive::<K>(a.drop_first(), b.drop_first(), c.drop_first());
        }
    }
}

proof fn lemma_lex_connected<K: Key>(a: Seq<K::Model>, b: Seq<K::Model>)
    requires
        !lex_lt::<K>(a, b),
        !lex_lt::<K>(b, a),
    ensures
        a == b,
    decreases a.len(),
{
    if a.len() == 0 || b.len() == 0 {
        assert(a =~= b);
    } else {
        K::lt_connected(a[0], b[0]);
        lemma_lex_connected::<K>(a.drop_first(), b.drop_first());
        assert(a =~= seq![a[0]] + a.drop_first());
        assert(b =~= seq![b[0]] + b.drop_first());
    }
}

impl<K: Key> Key for Vec<K> {
    type Model = Seq<K::Model>;

    open spec fn model(&self) -> Seq<K::Model> {
        models(self@)
    }

    open spec fn lt(a: Seq<K::Model>, b: Seq<K::Model>) -> bool {
        lex_lt::<K>(a, b)
    }

    proof fn lt_irreflexive(a: Seq<K::Model>) {
        lemma_lex_irreflexive::<K>(a);
    }

    proof fn lt_transitive(a: Seq<K::Model>, b: Seq<K::Model>, c: Seq<K::Model>) {
        lemma_lex_transitive::<K>(a, b, c);
    }

    proof fn lt_connected(a: Seq<K::Model>, b: Seq<K::Model>) {
        lemma_lex_connected::<K>(a, b);
    }

    fn is_less(&self, other: &Vec<K>) -> (r: bool) {
        let ghost a = models(self@);
        let ghost b = models(other@);
        let mut i: usize = 0;
        assert(self.model() == a && other.model() == b);
        assert(<Vec<K> as Key>::lt(a, b) == lex_lt::<K>(a, b));
        assert(a.skip(0) =~= a && b.skip(0) =~= b);
        while i < self.len() && i < other.len()
            invariant
                a == models(self@),
                b == models(other@),
                i <= a.len(),
                i <= b.len(),
                lex_lt::<K>(a, b) == lex_lt::<K>(a.skip(i as int), b.skip(i as int)),
            decreases self.len() - i,
        {
            assert(a.skip(i as int).drop_first() =~= a.skip(i + 1));
            assert(b.skip(i as int).drop_first() =~= b.skip(i + 1));
            assert(a.skip(i as int)[0] == self@[i as int].model());
            assert(b.skip(i as int)[0] == other@[i as int].model());
            if self[i].is_less(&other[i]) {
                return true;
            }
            if other[i].is_less(&self[i]) {
                proof {
                    if self@[i as int].model() == other@[i as int].model() {
                        K::lt_irreflexive(self@[i as int].model());
                    }
                }
                return false;
            }
            proof {
                K::lt_connected(self@[i as int].model(), other@[i as int].model());
            }
            i += 1;
        }
        i < other.len()
    }
}

impl<A: Key, B: Key> Key for (A, B) {
    type Model = (A::Model, B::Model);

    open spec fn model(&self) -> (A::Model, B::Model) {
        (self.0.model(), self.1.model())
    }

    open spec fn lt(a: (A::Model, B::Model), b: (A::Model, B::Model)) -> bool {
        A::lt(a.0, b.0) || (a.0 == b.0 && B::lt(a.1, b.1))
    }

    proof fn lt_irreflexive(a: (A::Model, B::Model)) {
        A::lt_irreflexive(a.0);
        B::lt_irreflexive(a.1);
    }

    proof fn lt_transitive(
        a: (A::Model, B::Model),
        b: (A::Model, B::Model),
        c: (A::Model, B::Model),
    ) {
        if A::lt(a.0, b.0) && A::lt(b.0, c.0) {
            A::lt_transitive(a.0, b.0, c.0);
        } else if !A::lt(a.0, b.0) && !A::lt(b.0, c.0) {
            B::lt_transitive(a.1, b.1, c.1);
        }
    }

    proof fn lt_connected(a: (A::Model, B::Model), b: (A::Model, B::Model)) {
        A::lt_connected(a.0, b.0);
        B::lt_connected(a.1, b.1);
    }

    fn is_less(&self, other: &(A, B)) -> (r: bool) {
        if self.0.is_less(&other.0) {
            true
        } else if other.0.is_less(&self.0) {
            proof {
                if self.0.model() == other.0.model() {
                    A::lt_irreflexive(self.0.model());
                }
            }
            false
        } else {
            proof {
                A::lt_connected(self.0.model(), other.0.model());
            }
            self.1.is_less(&other.1)
        }
    }
}

impl Key for char {
    type Model = char;

    open spec fn model(&self) -> char {
        *self
    }

    open spec fn lt(a: char, b: char) -> bool {
        (a as int) < (b as int)
    }

    proof fn lt_irreflexive(a: char) {
    }

    proof fn lt_transitive(a: char, b: char, c: char) {
    }

    proof fn lt_connected(a: char, b: char) {
    }

    fn is_less(&self, other: &char) -> (r: bool) {
        *self < *other
    }
}

/// Texts are ordered character by character, by code points.
impl Key for String {
    type Model = Seq<char>;

    open spec fn model(&self) -> Seq<char> {
        self@
    }

    open spec fn lt(a: Seq<char>, b: Seq<char>) -> bool {
        lex_lt::<char>(a, b)
    }

    proof fn lt_irreflexive(a: Seq<char>) {
        lemma_lex_irreflexive::<char>(a);
    }

    proof fn lt_transitive(a: Seq<char>, b: Seq<char>, c: Seq<char>) {
        lemma_lex_transitive::<char>(a, b, c);
    }

    proof fn lt_connected(a: Seq<char>, b: Seq<char>) {
        lemma_lex_connected::<char>(a, b);
    }

    fn is_less(&self, other: &String) -> (r: bool) {
        let a = chars_of(self);
        let b = chars_of(other);
        assert(models(a@) =~= self@);
        assert(models(b@) =~= other@);
        a.is_less(&b)
    }
}

/// The characters of the text.
fn chars_of(s: &String) -> (r: Vec<char>)
    ensures
        r@ == s@,
{
    let text = s.as_str();
    let n: usize = text.unicode_len();
    let mut r: Vec<char> = Vec::new();
    let mut i: usize = 0;
    while i < n
        invariant
            i <= n,
            n == text@.len(),
            r@ =~= text@.take(i as int),
        decreases n - i,
    {
        r.push(text.get_char(i));
        i += 1;
    }
    r
}

/// The ascending list of the elements of a finite set.
pub open spec fn ascending<K: Key>(set: Set<K::Model>) -> Seq<K::Model> {
    choose|s: Seq<K::Model>| increasing::<K>(s) && s.to_set() == set
}

/// An ascending list is the one of its elements.
pub proof fn lemma_ascending<K: Key>(s: Seq<K::Model>)
    requires
        increasing::<K>(s),
    ensures
        ascending::<K>(s.to_set()) == s,
{
    let t = ascending::<K>(s.to_set());
    assert(increasing::<K>(s) && s.to_set() == s.to_set());
    assert forall|x: K::Model| t.contains(x) <==> s.contains(x) by {
        assert(t.to_set().contains(x) <==> s.to_set().contains(x));
    }
    lemma_increasing_unique::<K>(t, s);
}

/// `x` put behind everything that does not come after it, in a list without descents.
pub open spec fn insert_sorted<K: Key>(s: Seq<K::Model>, x: K::Model) -> Seq<K::Model>
    decreases s.len(),
{
    if s.len() == 0 || !K::lt(x, s.last()) {
        s.push(x)
    } else {
        insert_sorted::<K>(s.drop_last(), x).push(s.last())
    }
}

/// The elements of `s` without descents.
pub open spec fn sorted<K: Key>(s: Seq<K::Model>) -> Seq<K::Model>
    decreases s.len(),
{
    if s.len() == 0 {
        Seq::empty()
    } else {
        insert_sorted::<K>(sorted::<K>(s.drop_last()), s.last())
    }
}

/// No element comes before one that stands in front of it.
pub open spec fn ordered<K: Key>(s: Seq<K::Model>) -> bool {
    forall|i: int, j: int| 0 <= i < j < s.len() ==> !K::lt(#[trigger] s[j], #[trigger] s[i])
}

proof fn lemma_insert_sorted<K: Key>(s: Seq<K::Model>, x: K::Model)
    requires
        ordered::<K>(s),
    ensures
        ordered::<K>(insert_sorted::<K>(s, x)),
        insert_sorted::<K>(s, x).to_multiset() == s.to_multiset().insert(x),
        insert_sorted::<K>(s, x).len() == s.len() + 1,
    decreases s.len(),
{
    broadcast use vstd::seq_lib::group_to_multiset_ensures;

    let t = insert_sorted::<K>(s, x);
    if s.len() == 0 || !K::lt(x, s.last()) {
        assert forall|i: int, j: int| 0 <= i < j < t.len() implies !K::lt(
            #[trigger] t[j],
            #[trigger] t[i],
        ) by {
            if j == s.len() && K::lt(x, s[i]) {
                let l = s.last();
                if i < s.len() - 1 {
                    assert(!K::lt(s[s.len() - 1], s[i]));
                    lemma_lt_chain::<K>(x, s[i], l);
                }
            }
        }
    } else {
        let d = s.drop_last();
        assert(s =~= d.push(s.last()));
        lemma_insert_sorted::<K>(d, x);
        let u = insert_sorted::<K>(d, x);
        assert(t == u.push(s.last()));
        assert forall|i: int, j: int| 0 <= i < j < t.len() implies !K::lt(
            #[trigger] t[j],
            #[trigger] t[i],
        ) by {
            if j == u.len() {
                assert(u.to_multiset().count(u[i]) > 0);
                assert(d.to_multiset().insert(x).count(u[i]) > 0);
                if u[i] == x {
                    if K::lt(s.last(), x) {
                        K::lt_transitive(x, s.last(), x);
                        K::lt_irreflexive(x);
                    }
                } else {
                    assert(d.to_multiset().count(u[i]) > 0);
                    assert(d.contains(u[i]));
                    let k = choose|k: int| 0 <= k < d.len() && d[k] == u[i];
                    assert(s[k] == u[i]);
                    assert(!K::lt(s[s.len() - 1], s[k]));
                }
            }
        }
        assert(t.to_multiset() =~= s.to_multiset().insert(x));
    }
}

/// What comes before something that is not after a third comes before the third.
proof fn lemma_lt_chain<K: Key>(a: K::Model, b: K::Model, c: K::Model)
    requires
        K::lt(a, b),
        !K::lt(c, b),
    ensures
        K::lt(a, c),
{
    if !K::lt(a, c) {
        if K::lt(c, a) {
            K::lt_transitive(c, a, b);
        } else {
            K::lt_connected(a, c);
        }
    }
}

/// Sorting leaves no descents, and the same elements as often as they were there.
pub proof fn lemma_sorted<K: Key>(s: Seq<K::Model>)
    ensures
        ordered::<K>(sorted::<K>(s)),
        sorted::<K>(s).to_multiset() == s.to_multiset(),
        sorted::<K>(s).len() == s.len(),
    decreases s.len(),
{
    broadcast use vstd::seq_lib::group_to_multiset_ensures;

    if s.len() > 0 {
        lemma_sorted::<K>(s.drop_last());
        lemma_insert_sorted::<K>(sorted::<K>(s.drop_last()), s.last());
        assert(s =~= s.drop_last().push(s.last()));
    } else {
        assert(s =~= Seq::empty());
    }
}

/// Two lists without descents that hold the same elements as often are the same.
proof fn lemma_ordered_unique<K: Key>(a: Seq<K::Model>, b: Seq<K::Model>)
    requires
        ordered::<K>(a),
        ordered::<K>(b),
        a.to_multiset() == b.to_multiset(),
    ensures
        a == b,
    decreases a.len(),
{
    broadcast use vstd::seq_lib::group_to_multiset_ensures;

    assert(a.to_multiset().len() == a.len());
    assert(b.to_multiset().len() == b.len());
    if a.len() == 0 {
        assert(a =~= b);
    } else {
        let (x, y) = (a.last(), b.last());
        assert(a.contains(a[a.len() - 1]));
        assert(b.contains(b[b.len() - 1]));
        let (da, db) = (a.drop_last(), b.drop_last());
        assert(a =~= da.push(x));
        assert(b =~= db.push(y));
        if x != y {
            assert(b.to_multiset().count(x) > 0);
            assert(a.to_multiset().count(y) > 0);
            let i = choose|i: int| 0 <= i < b.len() && b[i] == x;
            let j = choose|j: int| 0 <= j < a.len() && a[j] == y;
            assert(!K::lt(b[b.len() - 1], b[i]));
            assert(!K::lt(a[a.len() - 1], a[j]));
            K::lt_connected(x, y);
        }
        assert(da.to_multiset() =~= a.to_multiset().remove(x));
        assert(db.to_multiset() =~= b.to_multiset().remove(y));
        lemma_ordered_unique::<K>(da, db);
    }
}

/// Lists that hold the same elements as often are the same once they are sorted.
pub proof fn lemma_sorted_alike<K: Key>(a: Seq<K::Model>, b: Seq<K::Model>)
    requires
        a.to_multiset() == b.to_multiset(),
    ensures
        sorted::<K>(a) == sorted::<K>(b),
{
    lemma_sorted::<K>(a);
    lemma_sorted::<K>(b);
    lemma_ordered_unique::<K>(sorted::<K>(a), sorted::<K>(b));
}

/// Sorting keeps which elements are there.
pub proof fn lemma_sorted_contains<K: Key>(s: Seq<K::Model>, x: K::Model)
    ensures
        sorted::<K>(s).contains(x) <==> s.contains(x),
{
    broadcast use vstd::seq_lib::group_to_multiset_ensures;

    lemma_sorted::<K>(s);
    assert(s.contains(x) <==> s.to_multiset().count(x) > 0);
    assert(sorted::<K>(s).contains(x) <==> sorted::<K>(s).to_multiset().count(x) > 0);
}

/// A sorted list without repetitions ascends.
pub proof fn lemma_sorted_increasing<K: Key>(s: Seq<K::Model>)
    requires
        s.no_duplicates(),
    ensures
        increasing::<K>(sorted::<K>(s)),
{
    broadcast use vstd::seq_lib::group_to_multiset_ensures;

    lemma_sorted::<K>(s);
    let t = sorted::<K>(s);
    s.lemma_multiset_has_no_duplicates();
    assert forall|x: K::Model| t.to_multiset().contains(x) implies t.to_multiset().count(x)
        == 1 by {
        assert(s.to_multiset().contains(x));
    }
    t.lemma_multiset_has_no_duplicates_conv();
    assert forall|i: int, j: int| 0 <= i < j < t.len() implies K::lt(
        #[trigger] t[i],
        #[trigger] t[j],
    ) by {
        assert(!K::lt(t[j], t[i]));
        assert(t[i] != t[j]);
        if !K::lt(t[i], t[j]) {
            K::lt_connected(t[i], t[j]);
        }
    }
}

proof fn lemma_to_seq_distinct<A>(set: Set<A>)
    requires
        set.finite(),
    ensures
        set.to_seq().no_duplicates(),
    decreases set.len(),
{
    if set.len() > 0 {
        let x = set.choose();
        let rest = set.remove(x);
        lemma_to_seq_distinct(rest);
        rest.lemma_to_seq_to_set_id();
        let tail = rest.to_seq();
        let all = set.to_seq();
        assert(!tail.contains(x)) by {
            assert(tail.to_set().contains(x) <==> rest.contains(x));
        }
        assert(all =~= Seq::empty().push(x) + tail);
        assert forall|i: int, j: int| 0 <= i < j < all.len() implies all[i] != all[j] by {
            assert(all[j] == tail[j - 1]);
            if i == 0 {
                assert(tail.contains(tail[j - 1]));
            } else {
                assert(all[i] == tail[i - 1]);
            }
        }
    }
}

/// The ascending walk of a finite set has its elements, and no others.
pub proof fn lemma_ascending_of_set<K: Key>(set: Set<K::Model>)
    requires
        set.finite(),
    ensures
        increasing::<K>(ascending::<K>(set)),
        forall|x: K::Model| #[trigger] ascending::<K>(set).contains(x) <==> set.contains(x),
{
    let list = set.to_seq();
    set.lemma_to_seq_to_set_id();
    lemma_to_seq_distinct(set);
    lemma_sorted_increasing::<K>(list);
    let walk = sorted::<K>(list);
    assert forall|x: K::Model| walk.to_set().contains(x) <==> set.contains(x) by {
        lemma_sorted_contains::<K>(list, x);
        assert(list.to_set().contains(x) <==> set.contains(x));
    }
    assert(walk.to_set() =~= set);
    lemma_ascending::<K>(walk);
    assert forall|x: K::Model| #[trigger] ascending::<K>(set).contains(x) <==> set.contains(x) by {
        assert(walk.to_set().contains(x) <==> set.contains(x));
    }
}

proof fn lemma_insert_sorted_at<K: Key>(s: Seq<K::Model>, x: K::Model, pos: int)
    requires
        0 <= pos <= s.len(),
        forall|i: int| pos <= i < s.len() ==> K::lt(x, #[trigger] s[i]),
        pos > 0 ==> !K::lt(x, s[pos - 1]),
    ensures
        insert_sorted::<K>(s, x) == s.insert(pos, x),
    decreases s.len(),
{
    if pos == s.len() {
        assert(s.insert(pos, x) =~= s.push(x));
    } else {
        let d = s.drop_last();
        assert(K::lt(x, s[s.len() - 1]));
        lemma_insert_sorted_at::<K>(d, x, pos);
        assert(s.insert(pos, x) =~= d.insert(pos, x).push(s.last()));
    }
}

/// Puts `x` into the list behind everything that does not come after it.
pub fn sort_in<K: Key>(list: &mut Vec<K>, x: K)
    ensures
        models(final(list)@) == insert_sorted::<K>(models(old(list)@), x.model()),
{
    let mut pos: usize = list.len();
    let ghost ms = models(list@);
    while pos > 0 && x.is_less(&list[pos - 1])
        invariant
            pos <= list@.len(),
            ms == models(list@),
            forall|i: int| pos <= i < list@.len() ==> K::lt(x.model(), #[trigger] ms[i]),
        decreases pos,
    {
        pos -= 1;
    }
    proof {
        lemma_insert_sorted_at::<K>(ms, x.model(), pos as int);
    }
    let ghost before = list@;
    list.insert(pos, x);
    assert(models(list@) =~= ms.insert(pos as int, x.model()));
}

/// The elements of the list without descents.
pub fn sort<K: Key>(list: Vec<K>) -> (r: Vec<K>)
    ensures
        models(r@) == sorted::<K>(models(list@)),
{
    let ghost all = models(list@);
    let ghost given = list@;
    let mut r: Vec<K> = Vec::new();
    assert(models(r@) =~= sorted::<K>(all.take(0)));
    for x in it: list
        invariant
            it.seq() == given,
            all == models(given),
            models(r@) == sorted::<K>(all.take(it.index() as int)),
    {
        assert(all.take(it.index() + 1).drop_last() =~= all.take(it.index() as int));
        assert(all.take(it.index() + 1).last() == all[it.index() as int]);
        sort_in(&mut r, x);
    }
    assert(all.take(all.len() as int) =~= all);
    r
}

} // verus!
