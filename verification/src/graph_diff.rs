//! What two commit graphs differ in, line by line.

use crate::collections::SortedSet;
use crate::commit::{
    opt_name, ref_names, same_flags, same_ids, same_opt_name, same_refs, tips_view, CommitView,
    RefInfo, Tip,
};
use crate::commit_graph::{lemma_last_index, links, CommitGraph};
use crate::names::{
    id_debug, id_hex, ids_debug, ids_debug_text, opt_id_debug, opt_id_debug_text, opt_ref_debug,
    opt_ref_debug_text, ref_text, texts_debug, texts_debug_text, ObjectId,
};
use crate::order::ascending;
use crate::reports::{one_sided_lines, push_one_sided, Shown};
use crate::seqs::lemma_add_assoc;
use crate::text::{join, join_text, lemma_no_line, line_if, push_line, texts, truth, truth_text};
use vstd::prelude::*;
use vstd::string::*;

verus! {

/// The texts of the names.
pub open spec fn ref_texts(refs: Seq<Seq<u8>>) -> Seq<Seq<char>> {
    refs.map_values(|n: Seq<u8>| ref_text(n))
}

/// What the commit `id` differs in. The order of its references counts.
pub open spec fn commit_lines(
    id: ObjectId,
    a: Option<CommitView>,
    b: Option<CommitView>,
) -> Seq<Seq<char>> {
    match (a, b) {
        (Some(a), Some(b)) => {
            line_if(
                a.parent_ids != b.parent_ids,
                id_hex(id) + ": parents "@ + ids_debug(a.parent_ids) + " != "@ + ids_debug(
                    b.parent_ids,
                ),
            ) + line_if(
                !same_flags(a.flags, b.flags),
                id_hex(id) + ": flags "@ + a.flags.shown + " != "@ + b.flags.shown,
            ) + line_if(
                a.refs != b.refs,
                id_hex(id) + ": refs "@ + texts_debug(ref_texts(a.refs)) + " != "@ + texts_debug(
                    ref_texts(b.refs),
                ),
            )
        },
        (Some(_), None) => line_if(true, id_hex(id) + ": only in SELF"@),
        (None, Some(_)) => line_if(true, id_hex(id) + ": only in OTHER"@),
        (None, None) => Seq::empty(),
    }
}

/// The ids of both graphs.
pub open spec fn all_ids(a: Seq<CommitView>, b: Seq<CommitView>) -> Set<ObjectId> {
    (a + b).map_values(|c: CommitView| c.id).to_set()
}

impl CommitGraph {
    /// The commit `id`, if the graph has it.
    pub open spec fn commit_at(self, id: ObjectId) -> Option<CommitView> {
        match self.index(id) {
            Some(idx) => Some(self.commits()[idx as int]),
            None => None,
        }
    }
}

/// What the commits `ids` differ in.
pub open spec fn commits_lines(a: CommitGraph, b: CommitGraph, ids: Seq<ObjectId>) -> Seq<Seq<char>>
    decreases ids.len(),
{
    if ids.len() == 0 {
        Seq::empty()
    } else {
        commits_lines(a, b, ids.drop_last()) + commit_lines(
            ids.last(),
            a.commit_at(ids.last()),
            b.commit_at(ids.last()),
        )
    }
}

impl Shown for (ObjectId, ObjectId) {
    open spec fn shown(pair: (ObjectId, ObjectId)) -> Seq<char> {
        "("@ + id_debug(pair.0) + ", "@ + id_debug(pair.1) + ")"@
    }

    fn show(&self) -> (r: String) {
        let mut r = "(".to_string();
        r.append(self.0.debug_text().as_str());
        r.append(", ");
        r.append(self.1.debug_text().as_str());
        r.append(")");
        r
    }
}

/// The connections, none if all count.
pub open spec fn link_set(links: Option<Set<(ObjectId, ObjectId)>>) -> Set<(ObjectId, ObjectId)> {
    match links {
        Some(set) => set,
        None => Set::empty(),
    }
}

/// How it is shown whether only some connections count; it is shown only where none does.
pub open spec fn limit_text(links: Option<Set<(ObjectId, ObjectId)>>) -> Seq<char> {
    match links {
        Some(_) => "Some({})"@,
        None => "None"@,
    }
}

/// The connections that only one of both has; or that in one all connections count, and in the other
/// none.
pub open spec fn link_lines(
    a: Option<Set<(ObjectId, ObjectId)>>,
    b: Option<Set<(ObjectId, ObjectId)>>,
) -> Seq<Seq<char>> {
    line_if(
        a != b && link_set(a) == link_set(b),
        "connected "@ + limit_text(a) + " != "@ + limit_text(b),
    ) + one_sided_lines::<(ObjectId, ObjectId)>(
        "connected only in SELF: "@,
        "connected only in OTHER: "@,
        link_set(a),
        link_set(b),
    )
}

/// The tips as a list.
pub open spec fn tips_text(tips: Seq<Tip>) -> Seq<char> {
    "["@ + join(tips_view(tips), ", "@) + "]"@
}

/// The ids as a set.
pub open spec fn id_set_text(ids: Set<ObjectId>) -> Seq<char> {
    "{"@ + join(
        ascending::<ObjectId>(ids).map_values(|id: ObjectId| id_debug(id)),
        ", "@,
    ) + "}"@
}

/// What the graphs differ in beside their commits.
pub open spec fn setting_lines(a: CommitGraph, b: CommitGraph) -> Seq<Seq<char>> {
    line_if(
        a.entrypoint != b.entrypoint,
        "entrypoint "@ + opt_id_debug(a.entrypoint) + " != "@ + opt_id_debug(b.entrypoint),
    ) + line_if(
        opt_name(a.entrypoint_ref) != opt_name(b.entrypoint_ref),
        "entrypoint_ref "@ + opt_ref_debug(opt_name(a.entrypoint_ref)) + " != "@ + opt_ref_debug(
            opt_name(b.entrypoint_ref),
        ),
    ) + link_lines(a.links(), b.links()) + line_if(
        a.hard_limit_hit != b.hard_limit_hit,
        "hard_limit_hit "@ + truth(a.hard_limit_hit) + " != "@ + truth(b.hard_limit_hit),
    ) + line_if(
        tips_text(a.traversal_tips@) != tips_text(b.traversal_tips@),
        "traversal_tips "@ + tips_text(a.traversal_tips@) + " != "@ + tips_text(b.traversal_tips@),
    ) + line_if(
        a.explicit_tips != b.explicit_tips,
        "explicit_tips "@ + truth(a.explicit_tips) + " != "@ + truth(b.explicit_tips),
    ) + line_if(
        a.managed_ws_commits@ != b.managed_ws_commits@,
        "managed_ws_commits "@ + id_set_text(a.managed_ws_commits@) + " != "@ + id_set_text(
            b.managed_ws_commits@,
        ),
    )
}

/// What the graphs differ in: the commits in the order of their ids, and what goes beside them.
pub open spec fn graph_lines(a: CommitGraph, b: CommitGraph) -> Seq<Seq<char>> {
    commits_lines(a, b, ascending::<ObjectId>(all_ids(a.commits(), b.commits()))) + setting_lines(
        a,
        b,
    )
}

/// The texts of the references' names.
fn texts_of(refs: &Vec<RefInfo>) -> (r: Vec<String>)
    ensures
        texts(r@) == ref_texts(ref_names(refs@)),
{
    let ghost f = |n: Seq<u8>| ref_text(n);
    let mut list: Vec<String> = Vec::new();
    let mut i: usize = 0;
    while i < refs.len()
        invariant
            i <= refs@.len(),
            f == (|n: Seq<u8>| ref_text(n)),
            texts(list@) =~= ref_names(refs@).take(i as int).map_values(f),
        decreases refs.len() - i,
    {
        let ghost before = list@;
        list.push(refs[i].ref_name.to_text());
        assert(texts(list@) =~= texts(before).push(f(refs@[i as int]@)));
        i += 1;
    }
    assert(texts(list@) =~= ref_names(refs@).map_values(f));
    list
}

/// `head`, both texts, and that they differ.
fn unequal(head: String, a: &str, b: &str) -> (r: String)
    ensures
        r@ == head@ + a@ + " != "@ + b@,
{
    let mut r = head;
    r.append(a);
    r.append(" != ");
    r.append(b);
    r
}

/// `head` and `tail`.
fn two(head: String, tail: &str) -> (r: String)
    ensures
        r@ == head@ + tail@,
{
    let mut r = head;
    r.append(tail);
    r
}

/// Appends what the commit `id` differs in.
fn push_commit_lines(out: &mut Vec<String>, a: &CommitGraph, b: &CommitGraph, id: ObjectId)
    requires
        a.wf(),
        b.wf(),
    ensures
        texts(final(out)@) == texts(old(out)@) + commit_lines(id, a.commit_at(id), b.commit_at(id)),
{
    let ghost start = texts(out@);
    proof {
        lemma_last_index(a.commits(), id);
        lemma_last_index(b.commits(), id);
    }
    match (a.node(id), b.node(id)) {
        (Some(_), None) => {
            push_line(out, two(id.to_hex(), ": only in SELF"));
        },
        (None, Some(_)) => {
            push_line(out, two(id.to_hex(), ": only in OTHER"));
        },
        (Some(na), Some(nb)) => {
            let (ca, cb) = (&na.commit, &nb.commit);
            assert(a.commit_at(id) == Some(ca@));
            assert(b.commit_at(id) == Some(cb@));
            let ghost l1 = id_hex(id) + ": parents "@ + ids_debug(ca@.parent_ids) + " != "@
                + ids_debug(cb@.parent_ids);
            proof {
                lemma_no_line(texts(out@), l1);
            }
            if !same_ids(&ca.parent_ids, &cb.parent_ids) {
                push_line(
                    out,
                    unequal(
                        two(id.to_hex(), ": parents "),
                        ids_debug_text(&ca.parent_ids).as_str(),
                        ids_debug_text(&cb.parent_ids).as_str(),
                    ),
                );
            }
            let ghost s1 = line_if(ca@.parent_ids != cb@.parent_ids, l1);
            assert(texts(out@) == start + s1);
            let ghost l2 = id_hex(id) + ": flags "@ + ca@.flags.shown + " != "@ + cb@.flags.shown;
            proof {
                lemma_no_line(texts(out@), l2);
            }
            if !ca.flags.same(&cb.flags) {
                push_line(
                    out,
                    unequal(
                        two(id.to_hex(), ": flags "),
                        ca.flags.debug_string().as_str(),
                        cb.flags.debug_string().as_str(),
                    ),
                );
            }
            let ghost s2 = line_if(!same_flags(ca@.flags, cb@.flags), l2);
            assert(texts(out@) == start + s1 + s2);
            let (ra, rb) = (texts_of(&ca.refs), texts_of(&cb.refs));
            let ghost l3 = id_hex(id) + ": refs "@ + texts_debug(texts(ra@)) + " != "@
                + texts_debug(texts(rb@));
            proof {
                lemma_no_line(texts(out@), l3);
            }
            if !same_refs(&ca.refs, &cb.refs) {
                push_line(
                    out,
                    unequal(
                        two(id.to_hex(), ": refs "),
                        texts_debug_text(&ra).as_str(),
                        texts_debug_text(&rb).as_str(),
                    ),
                );
            }
            let ghost s3 = line_if(ca@.refs != cb@.refs, l3);
            assert(texts(out@) == start + s1 + s2 + s3);
            assert(start + s1 + s2 + s3 =~= start + (s1 + s2 + s3));
        },
        (None, None) => {
            assert(start + Seq::<Seq<char>>::empty() =~= start);
        },
    }
}

/// Whether both sets hold the same elements.
pub fn same_id_sets(a: &SortedSet<ObjectId>, b: &SortedSet<ObjectId>) -> (r: bool)
    ensures
        r == (a@ == b@),
{
    let (n, m): (usize, usize) = (a.len(), b.len());
    if n != m {
        assert(a@ != b@) by {
            if a@ == b@ {
                assert(a.seq() == b.seq());
            }
        }
        return false;
    }
    let mut i: usize = 0;
    while i < n
        invariant
            i <= n,
            n == a.seq().len(),
            n == b.seq().len(),
            a.seq() == ascending::<ObjectId>(a@),
            b.seq() == ascending::<ObjectId>(b@),
            forall|j: int| 0 <= j < i ==> a.seq()[j] == b.seq()[j],
        decreases n - i,
    {
        if *a.at(i) != *b.at(i) {
            return false;
        }
        i += 1;
    }
    assert(a.seq() =~= b.seq());
    true
}

/// The tips as a list.
fn tips_list_text(tips: &Vec<Tip>) -> (r: String)
    ensures
        r@ == tips_text(tips@),
{
    let mut parts: Vec<String> = Vec::new();
    let mut i: usize = 0;
    while i < tips.len()
        invariant
            i <= tips@.len(),
            texts(parts@) =~= tips_view(tips@).take(i as int),
        decreases tips.len() - i,
    {
        let ghost before = parts@;
        parts.push(tips[i].shown.clone());
        assert(texts(parts@) =~= texts(before).push(tips@[i as int]@));
        i += 1;
    }
    assert(texts(parts@) =~= tips_view(tips@));
    let mut r = "[".to_string();
    r.append(join_text(&parts, ", ").as_str());
    r.append("]");
    r
}

/// The ids as a set.
fn id_set_list_text(ids: &SortedSet<ObjectId>) -> (r: String)
    ensures
        r@ == id_set_text(ids@),
{
    let n: usize = ids.len();
    let ghost f = |id: ObjectId| id_debug(id);
    let mut parts: Vec<String> = Vec::new();
    let mut i: usize = 0;
    while i < n
        invariant
            i <= n,
            n == ids.seq().len(),
            f == (|id: ObjectId| id_debug(id)),
            texts(parts@) =~= ids.seq().take(i as int).map_values(f),
        decreases n - i,
    {
        let ghost before = parts@;
        parts.push(ids.at(i).debug_text());
        assert(texts(parts@) =~= texts(before).push(f(ids.seq()[i as int])));
        i += 1;
    }
    assert(texts(parts@) =~= ids.seq().map_values(f));
    let mut r = "{".to_string();
    r.append(join_text(&parts, ", ").as_str());
    r.append("}");
    r
}

/// How it is shown whether only some connections count.
fn limit_shown(connected: &Option<SortedSet<(ObjectId, ObjectId)>>) -> (r: String)
    ensures
        r@ == limit_text(links(*connected)),
{
    match connected {
        Some(_) => "Some({})".to_string(),
        None => "None".to_string(),
    }
}

/// Appends what the connections differ in.
fn push_link_lines(out: &mut Vec<String>, a: &CommitGraph, b: &CommitGraph)
    ensures
        texts(final(out)@) == texts(old(out)@) + link_lines(a.links(), b.links()),
        link_lines(a.links(), b.links()).len() == 0 <==> a.links() == b.links(),
{
    let none: SortedSet<(ObjectId, ObjectId)> = SortedSet::new();
    let sa = match &a.connected {
        Some(set) => set,
        None => &none,
    };
    let sb = match &b.connected {
        Some(set) => set,
        None => &none,
    };
    assert(sa@ == link_set(a.links()));
    assert(sb@ == link_set(b.links()));
    let ghost start = texts(out@);
    let empty: bool = sa.len() == 0 && sb.len() == 0;
    proof {
        if sa.seq().len() == 0 && sb.seq().len() == 0 {
            assert(sa@ =~= sb@);
        }
    }
    push_unequal_if(
        out,
        a.connected.is_some() != b.connected.is_some() && empty,
        "connected ",
        limit_shown(&a.connected),
        limit_shown(&b.connected),
    );
    push_one_sided(out, "connected only in SELF: ", "connected only in OTHER: ", sa, sb);
}

impl CommitGraph {
    /// What this graph and `other` differ in, one line for each difference.
    pub fn diff_against(&self, other: &CommitGraph) -> (out: Vec<String>)
        requires
            self.wf(),
            other.wf(),
        ensures
            texts(out@) == graph_lines(*self, *other),
            out@.len() == 0 <==> same_graph(*self, *other),
    {
        let mut out: Vec<String> = Vec::new();
        let mut ids: SortedSet<ObjectId> = SortedSet::new();
        let own_ids = self.commit_ids();
        let other_ids = other.commit_ids();
        insert_all(&mut ids, &own_ids);
        insert_all(&mut ids, &other_ids);
        proof {
            let f = |c: CommitView| c.id;
            assert((self.commits() + other.commits()).map_values(f) =~= own_ids@ + other_ids@);
            assert(ids@ =~= all_ids(self.commits(), other.commits())) by {
                lemma_to_set_concat(own_ids@, other_ids@);
            }
        }
        let n: usize = ids.len();
        let ghost all = ids.seq();
        let mut i: usize = 0;
        assert(texts(out@) =~= commits_lines(*self, *other, all.take(0)));
        while i < n
            invariant
                i <= n,
                n == all.len(),
                all == ids.seq(),
                self.wf(),
                other.wf(),
                texts(out@) == commits_lines(*self, *other, all.take(i as int)),
            decreases n - i,
        {
            let id = *ids.at(i);
            assert(all.take(i + 1).drop_last() =~= all.take(i as int));
            assert(all.take(i + 1).last() == id);
            push_commit_lines(&mut out, self, other, id);
            i += 1;
        }
        assert(all.take(n as int) =~= all);
        push_setting_lines(&mut out, self, other);
        proof {
            lemma_no_commit_lines(*self, *other, all);
            lemma_no_setting_lines(*self, *other);
            assert(texts(out@).len() == out@.len());
        }
        out
    }
}

/// The commit is in both graphs or in neither, with the same parents, flags and references, each in
/// the same order.
pub open spec fn same_commit(a: CommitGraph, b: CommitGraph, id: ObjectId) -> bool {
    match (a.commit_at(id), b.commit_at(id)) {
        (Some(ca), Some(cb)) => {
            &&& ca.parent_ids == cb.parent_ids
            &&& same_flags(ca.flags, cb.flags)
            &&& ca.refs == cb.refs
        },
        (None, None) => true,
        _ => false,
    }
}

/// Both graphs say the same, but for the generations and the order of the commits.
pub open spec fn same_graph(a: CommitGraph, b: CommitGraph) -> bool {
    &&& forall|id: ObjectId|
        all_ids(a.commits(), b.commits()).contains(id) ==> #[trigger] same_commit(a, b, id)
    &&& a.entrypoint == b.entrypoint
    &&& opt_name(a.entrypoint_ref) == opt_name(b.entrypoint_ref)
    &&& a.links() == b.links()
    &&& a.hard_limit_hit == b.hard_limit_hit
    &&& tips_text(a.traversal_tips@) == tips_text(b.traversal_tips@)
    &&& a.explicit_tips == b.explicit_tips
    &&& a.managed_ws_commits@ == b.managed_ws_commits@
}

proof fn lemma_no_commit_lines(a: CommitGraph, b: CommitGraph, ids: Seq<ObjectId>)
    ensures
        commits_lines(a, b, ids).len() == 0 <==> forall|id: ObjectId|
            ids.to_set().contains(id) ==> #[trigger] same_commit(a, b, id),
    decreases ids.len(),
{
    if ids.len() > 0 {
        let d = ids.drop_last();
        lemma_no_commit_lines(a, b, d);
        let id = ids.last();
        assert(commit_lines(id, a.commit_at(id), b.commit_at(id)).len() == 0 <==> same_commit(
            a,
            b,
            id,
        ));
        assert(ids =~= d.push(id));
        assert forall|x: ObjectId| ids.to_set().contains(x) <==> d.to_set().contains(x) || x
            == id by {
            crate::seqs::lemma_push_contains(d, id, x);
        }
        if commits_lines(a, b, ids).len() != 0 {
            if same_commit(a, b, id) {
                let x = choose|x: ObjectId| d.to_set().contains(x) && !#[trigger] same_commit(a, b, x);
                assert(ids.to_set().contains(x));
            } else {
                assert(ids.to_set().contains(id));
            }
        }
    }
}

proof fn lemma_no_setting_lines(a: CommitGraph, b: CommitGraph)
    requires
        link_lines(a.links(), b.links()).len() == 0 <==> a.links() == b.links(),
    ensures
        setting_lines(a, b).len() == 0 <==> {
            &&& a.entrypoint == b.entrypoint
            &&& opt_name(a.entrypoint_ref) == opt_name(b.entrypoint_ref)
            &&& a.links() == b.links()
            &&& a.hard_limit_hit == b.hard_limit_hit
            &&& tips_text(a.traversal_tips@) == tips_text(b.traversal_tips@)
            &&& a.explicit_tips == b.explicit_tips
            &&& a.managed_ws_commits@ == b.managed_ws_commits@
        },
{
}

/// Adds all of `list` to the set.
pub fn insert_all(set: &mut SortedSet<ObjectId>, list: &Vec<ObjectId>)
    ensures
        final(set)@ == old(set)@.union(list@.to_set()),
{
    let ghost start = set@;
    let mut i: usize = 0;
    assert(set@ =~= start.union(list@.take(0).to_set()));
    while i < list.len()
        invariant
            i <= list@.len(),
            set@ == start.union(list@.take(i as int).to_set()),
        decreases list.len() - i,
    {
        set.insert(list[i]);
        proof {
            let now = list@.take(i + 1);
            assert(now =~= list@.take(i as int).push(list@[i as int]));
            assert forall|x: ObjectId| now.contains(x) <==> list@.take(i as int).contains(x) || x
                == list@[i as int] by {
                crate::seqs::lemma_push_contains(list@.take(i as int), list@[i as int], x);
            }
            assert(set@ =~= start.union(now.to_set()));
        }
        i += 1;
    }
    assert(list@.take(list@.len() as int) =~= list@);
}

proof fn lemma_to_set_concat(a: Seq<ObjectId>, b: Seq<ObjectId>)
    ensures
        (a + b).to_set() == a.to_set().union(b.to_set()),
{
    let ab = a + b;
    assert forall|x: ObjectId| ab.contains(x) <==> a.contains(x) || b.contains(x) by {
        if a.contains(x) {
            let i = choose|i: int| 0 <= i < a.len() && a[i] == x;
            assert(ab[i] == x);
        }
        if b.contains(x) {
            let i = choose|i: int| 0 <= i < b.len() && b[i] == x;
            assert(ab[a.len() + i] == x);
        }
        if ab.contains(x) {
            let i = choose|i: int| 0 <= i < ab.len() && ab[i] == x;
            if i < a.len() {
                assert(a[i] == x);
            } else {
                assert(b[i - a.len()] == x);
            }
        }
    }
    assert(ab.to_set() =~= a.to_set().union(b.to_set()));
}

/// Appends the line if it is `there`.
fn push_unequal_if(out: &mut Vec<String>, there: bool, head: &str, a: String, b: String)
    ensures
        texts(final(out)@) == texts(old(out)@) + line_if(there, head@ + a@ + " != "@ + b@),
{
    if there {
        push_line(out, unequal(head.to_string(), a.as_str(), b.as_str()));
    } else {
        proof {
            lemma_no_line(texts(out@), head@ + a@ + " != "@ + b@);
        }
    }
}

/// Appends what the graphs differ in beside their commits.
fn push_setting_lines(out: &mut Vec<String>, a: &CommitGraph, b: &CommitGraph)
    ensures
        texts(final(out)@) == texts(old(out)@) + setting_lines(*a, *b),
        link_lines(a.links(), b.links()).len() == 0 <==> a.links() == b.links(),
{
    let ghost start = texts(out@);
    let ghost s1 = line_if(
        a.entrypoint != b.entrypoint,
        "entrypoint "@ + opt_id_debug(a.entrypoint) + " != "@ + opt_id_debug(b.entrypoint),
    );
    let ghost s2 = line_if(
        opt_name(a.entrypoint_ref) != opt_name(b.entrypoint_ref),
        "entrypoint_ref "@ + opt_ref_debug(opt_name(a.entrypoint_ref)) + " != "@ + opt_ref_debug(
            opt_name(b.entrypoint_ref),
        ),
    );
    let ghost s3 = link_lines(a.links(), b.links());
    let ghost s4 = line_if(
        a.hard_limit_hit != b.hard_limit_hit,
        "hard_limit_hit "@ + truth(a.hard_limit_hit) + " != "@ + truth(b.hard_limit_hit),
    );
    let ghost s5 = line_if(
        tips_text(a.traversal_tips@) != tips_text(b.traversal_tips@),
        "traversal_tips "@ + tips_text(a.traversal_tips@) + " != "@ + tips_text(b.traversal_tips@),
    );
    let ghost s6 = line_if(
        a.explicit_tips != b.explicit_tips,
        "explicit_tips "@ + truth(a.explicit_tips) + " != "@ + truth(b.explicit_tips),
    );
    let ghost s7 = line_if(
        a.managed_ws_commits@ != b.managed_ws_commits@,
        "managed_ws_commits "@ + id_set_text(a.managed_ws_commits@) + " != "@ + id_set_text(
            b.managed_ws_commits@,
        ),
    );
    push_unequal_if(
        out,
        a.entrypoint != b.entrypoint,
        "entrypoint ",
        opt_id_debug_text(a.entrypoint),
        opt_id_debug_text(b.entrypoint),
    );
    push_unequal_if(
        out,
        !same_opt_name(&a.entrypoint_ref, &b.entrypoint_ref),
        "entrypoint_ref ",
        opt_ref_debug_text(a.entrypoint_ref()),
        opt_ref_debug_text(b.entrypoint_ref()),
    );
    push_link_lines(out, a, b);
    push_unequal_if(
        out,
        a.hard_limit_hit != b.hard_limit_hit,
        "hard_limit_hit ",
        truth_text(a.hard_limit_hit).to_string(),
        truth_text(b.hard_limit_hit).to_string(),
    );
    let (ta, tb) = (tips_list_text(&a.traversal_tips), tips_list_text(&b.traversal_tips));
    let other_tips: bool = ta != tb;
    push_unequal_if(out, other_tips, "traversal_tips ", ta, tb);
    push_unequal_if(
        out,
        a.explicit_tips != b.explicit_tips,
        "explicit_tips ",
        truth_text(a.explicit_tips).to_string(),
        truth_text(b.explicit_tips).to_string(),
    );
    push_unequal_if(
        out,
        !same_id_sets(&a.managed_ws_commits, &b.managed_ws_commits),
        "managed_ws_commits ",
        id_set_list_text(&a.managed_ws_commits),
        id_set_list_text(&b.managed_ws_commits),
    );
    proof {
        lemma_add_assoc(start, s1, s2);
        lemma_add_assoc(start, s1 + s2, s3);
        lemma_add_assoc(start, s1 + s2 + s3, s4);
        lemma_add_assoc(start, s1 + s2 + s3 + s4, s5);
        lemma_add_assoc(start, s1 + s2 + s3 + s4 + s5, s6);
        lemma_add_assoc(start, s1 + s2 + s3 + s4 + s5 + s6, s7);
    }
}

} // verus!
