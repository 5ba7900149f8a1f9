//! What reports on graphs say, and when they say it.

use crate::commit::{opt_name, same_flags, CommitView};
use crate::commit_graph::CommitGraph;
use crate::graph_diff::{
    all_ids, commit_lines, commits_lines, graph_lines, link_lines, ref_texts, setting_lines,
};
use crate::names::{id_debug, id_hex, ids_debug, opt_id_debug, opt_ref_debug, texts_debug, ObjectId};
use crate::order::{ascending, lemma_ascending_of_set};
use crate::reach::lemma_add_contains;
use crate::reports::{missing_lines, Shown};
use crate::text::{decimal, digit, join, line_if, truth};
use vstd::prelude::*;

verus! {

/// The number that decimal digits stand for.
pub open spec fn read_decimal(s: Seq<char>) -> nat
    decreases s.len(),
{
    if s.len() == 0 {
        0
    } else {
        read_decimal(s.drop_last()) * 10 + (s.last() as nat - 48) as nat
    }
}

/// A number in decimal stands for that number, is made of digits, and does not start with a zero unless
/// it is zero.
pub proof fn law_decimal(n: nat)
    ensures
        read_decimal(decimal(n)) == n,
        decimal(n).len() > 0,
        forall|i: int| 0 <= i < decimal(n).len() ==> '0' <= #[trigger] decimal(n)[i] <= '9',
        decimal(n)[0] == '0' ==> n == 0 && decimal(n).len() == 1,
    decreases n,
{
    if n < 10 {
        assert(decimal(n) =~= seq![digit(n)]);
        assert(decimal(n).drop_last() =~= Seq::empty());
        assert(decimal(n).last() == digit(n));
        assert(read_decimal(Seq::empty()) == 0);
    } else {
        law_decimal(n / 10);
        let before = decimal(n / 10);
        let all = decimal(n);
        assert(all.drop_last() =~= before);
        assert(all.last() == digit(n % 10));
        assert forall|i: int| 0 <= i < all.len() implies '0' <= #[trigger] all[i] <= '9' by {
            if i < before.len() {
                assert(all[i] == before[i]);
            }
        }
        assert(all[0] == before[0]);
    }
}

/// Texts are joined one after the other, with the separator between each two and nowhere else.
pub proof fn law_join(a: Seq<Seq<char>>, b: Seq<Seq<char>>, sep: Seq<char>)
    requires
        a.len() > 0,
        b.len() > 0,
    ensures
        join(a + b, sep) == join(a, sep) + sep + join(b, sep),
        b.len() == 1 ==> join(b, sep) == b[0],
    decreases b.len(),
{
    let all = a + b;
    assert(all.drop_last() =~= a + b.drop_last());
    assert(all.last() == b.last());
    if b.len() == 1 {
        assert(all.drop_last() =~= a);
    } else {
        law_join(a, b.drop_last(), sep);
        assert(join(all, sep) =~= join(a, sep) + sep + join(b, sep));
    }
}

/// There is one line for each element that is missing, that shows it.
pub proof fn law_missing_lines<K: Shown>(
    head: Seq<char>,
    list: Seq<K::Model>,
    other: Set<K::Model>,
    line: Seq<char>,
)
    ensures
        missing_lines::<K>(head, list, other).contains(line) <==> exists|i: int|
            0 <= i < list.len() && !other.contains(#[trigger] list[i]) && line == head + K::shown(
                list[i],
            ),
        missing_lines::<K>(head, list, other).len() == list.filter(
            |x: K::Model| !other.contains(x),
        ).len(),
    decreases list.len(),
{
    reveal(Seq::filter);
    if list.len() > 0 {
        let d = list.drop_last();
        law_missing_lines::<K>(head, d, other, line);
        let own = line_if(!other.contains(list.last()), head + K::shown(list.last()));
        lemma_add_contains(missing_lines::<K>(head, d, other), own, line);
        lemma_line(!other.contains(list.last()), head + K::shown(list.last()), line);
        if missing_lines::<K>(head, d, other).contains(line) {
            let i = choose|i: int|
                0 <= i < d.len() && !other.contains(#[trigger] d[i]) && line == head + K::shown(
                    d[i],
                );
            assert(list[i] == d[i]);
        }
        if own.contains(line) {
            assert(!other.contains(list[list.len() - 1]));
        }
        if exists|i: int|
            0 <= i < list.len() && !other.contains(#[trigger] list[i]) && line == head + K::shown(
                list[i],
            ) {
            let i = choose|i: int|
                0 <= i < list.len() && !other.contains(#[trigger] list[i]) && line == head
                    + K::shown(list[i]);
            if i < d.len() {
                assert(d[i] == list[i]);
            }
        }
    }
}

proof fn lemma_line(there: bool, own: Seq<char>, line: Seq<char>)
    ensures
        line_if(there, own).contains(line) <==> there && line == own,
{
    if there {
        assert(seq![own][0] == own);
        if seq![own].contains(line) {
            let i = choose|i: int| 0 <= i < seq![own].len() && seq![own][i] == line;
        }
    }
}

proof fn lemma_line_among(a: Seq<Seq<char>>, b: Seq<Seq<char>>, line: Seq<char>)
    ensures
        (a + b).contains(line) <==> a.contains(line) || b.contains(line),
{
    lemma_add_contains(a, b, line);
}

/// A commit that only one of two graphs has is reported as that, and so is each thing in which a commit
/// of both differs: its parents, its flags and its references.
#[verifier::rlimit(40)]
pub proof fn law_reported_commit(a: CommitGraph, b: CommitGraph, id: ObjectId)
    requires
        a.wf(),
        b.wf(),
    ensures
        ({
            let lines = graph_lines(a, b);
            match (a.commit_at(id), b.commit_at(id)) {
                (Some(_), None) => lines.contains(id_hex(id) + ": only in SELF"@),
                (None, Some(_)) => lines.contains(id_hex(id) + ": only in OTHER"@),
                (Some(x), Some(y)) => {
                    &&& x.parent_ids != y.parent_ids ==> lines.contains(
                        id_hex(id) + ": parents "@ + ids_debug(x.parent_ids) + " != "@ + ids_debug(
                            y.parent_ids,
                        ),
                    )
                    &&& !same_flags(x.flags, y.flags) ==> lines.contains(
                        id_hex(id) + ": flags "@ + x.flags.shown + " != "@ + y.flags.shown,
                    )
                    &&& x.refs != y.refs ==> lines.contains(
                        id_hex(id) + ": refs "@ + texts_debug(ref_texts(x.refs)) + " != "@
                            + texts_debug(ref_texts(y.refs)),
                    )
                },
                (None, None) => true,
            }
        }),
{
    let all = all_ids(a.commits(), b.commits());
    let ids = ascending::<ObjectId>(all);
    let both = (a.commits() + b.commits()).map_values(|c: CommitView| c.id);
    vstd::seq_lib::seq_to_set_is_finite(both);
    lemma_ascending_of_set::<ObjectId>(all);
    if a.commit_at(id) is Some || b.commit_at(id) is Some {
        crate::commit_graph::lemma_last_index(a.commits(), id);
        crate::commit_graph::lemma_last_index(b.commits(), id);
        if a.commit_at(id) is Some {
            let i = a.index(id)->0 as int;
            assert(both[i] == id);
        } else {
            let i = b.index(id)->0 as int;
            assert(both[a.commits().len() + i] == id);
        }
        assert(all.contains(id));
        assert(ids.to_set().contains(id));
        let own = commit_lines(id, a.commit_at(id), b.commit_at(id));
        assert forall|line: Seq<char>| own.contains(line) implies graph_lines(a, b).contains(
            line,
        ) by {
            lemma_among_commits(a, b, ids, id, line);
            lemma_line_among(commits_lines(a, b, ids), setting_lines(a, b), line);
        }
        match (a.commit_at(id), b.commit_at(id)) {
            (Some(x), Some(y)) => {
                let p = id_hex(id) + ": parents "@ + ids_debug(x.parent_ids) + " != "@ + ids_debug(
                    y.parent_ids,
                );
                let f = id_hex(id) + ": flags "@ + x.flags.shown + " != "@ + y.flags.shown;
                let r = id_hex(id) + ": refs "@ + texts_debug(ref_texts(x.refs)) + " != "@
                    + texts_debug(ref_texts(y.refs));
                let (lp, lf, lr) = (
                    line_if(x.parent_ids != y.parent_ids, p),
                    line_if(!same_flags(x.flags, y.flags), f),
                    line_if(x.refs != y.refs, r),
                );
                assert(own == lp + lf + lr);
                lemma_line(x.parent_ids != y.parent_ids, p, p);
                lemma_line(!same_flags(x.flags, y.flags), f, f);
                lemma_line(x.refs != y.refs, r, r);
                lemma_line_among(lp, lf, p);
                lemma_line_among(lp + lf, lr, p);
                lemma_line_among(lp, lf, f);
                lemma_line_among(lp + lf, lr, f);
                lemma_line_among(lp + lf, lr, r);
            },
            (Some(_), None) => {
                lemma_line(true, id_hex(id) + ": only in SELF"@, id_hex(id) + ": only in SELF"@);
            },
            (None, Some(_)) => {
                lemma_line(true, id_hex(id) + ": only in OTHER"@, id_hex(id) + ": only in OTHER"@);
            },
            (None, None) => {},
        }
    }
}

proof fn lemma_among_commits(
    a: CommitGraph,
    b: CommitGraph,
    ids: Seq<ObjectId>,
    id: ObjectId,
    line: Seq<char>,
)
    requires
        ids.contains(id),
        commit_lines(id, a.commit_at(id), b.commit_at(id)).contains(line),
    ensures
        commits_lines(a, b, ids).contains(line),
    decreases ids.len(),
{
    let d = ids.drop_last();
    let own = commit_lines(ids.last(), a.commit_at(ids.last()), b.commit_at(ids.last()));
    lemma_line_among(commits_lines(a, b, d), own, line);
    if ids.last() != id {
        let i = choose|i: int| 0 <= i < ids.len() && ids[i] == id;
        assert(d[i] == id);
        lemma_among_commits(a, b, d, id, line);
    }
}

/// Each thing in which two graphs differ beside their commits is reported: their entrypoints, what
/// these were checked out as, whether the hard limit was hit, and whether the tips were explicit.
pub proof fn law_reported_settings(a: CommitGraph, b: CommitGraph)
    ensures
        ({
            let lines = graph_lines(a, b);
            &&& a.entrypoint != b.entrypoint ==> lines.contains(
                "entrypoint "@ + opt_id_debug(a.entrypoint) + " != "@ + opt_id_debug(b.entrypoint),
            )
            &&& opt_name(a.entrypoint_ref) != opt_name(b.entrypoint_ref) ==> lines.contains(
                "entrypoint_ref "@ + opt_ref_debug(opt_name(a.entrypoint_ref)) + " != "@
                    + opt_ref_debug(opt_name(b.entrypoint_ref)),
            )
            &&& a.hard_limit_hit != b.hard_limit_hit ==> lines.contains(
                "hard_limit_hit "@ + truth(a.hard_limit_hit) + " != "@ + truth(b.hard_limit_hit),
            )
            &&& a.explicit_tips != b.explicit_tips ==> lines.contains(
                "explicit_tips "@ + truth(a.explicit_tips) + " != "@ + truth(b.explicit_tips),
            )
        }),
{
    let first = commits_lines(a, b, ascending::<ObjectId>(all_ids(a.commits(), b.commits())));
    let rest = setting_lines(a, b);
    assert forall|line: Seq<char>| rest.contains(line) implies graph_lines(a, b).contains(line) by {
        lemma_line_among(first, rest, line);
    }
    let e = "entrypoint "@ + opt_id_debug(a.entrypoint) + " != "@ + opt_id_debug(b.entrypoint);
    let r = "entrypoint_ref "@ + opt_ref_debug(opt_name(a.entrypoint_ref)) + " != "@
        + opt_ref_debug(opt_name(b.entrypoint_ref));
    let h = "hard_limit_hit "@ + truth(a.hard_limit_hit) + " != "@ + truth(b.hard_limit_hit);
    let t = "traversal_tips "@ + crate::graph_diff::tips_text(a.traversal_tips@) + " != "@
        + crate::graph_diff::tips_text(b.traversal_tips@);
    let x = "explicit_tips "@ + truth(a.explicit_tips) + " != "@ + truth(b.explicit_tips);
    let m = "managed_ws_commits "@ + crate::graph_diff::id_set_text(a.managed_ws_commits@) + " != "@
        + crate::graph_diff::id_set_text(b.managed_ws_commits@);
    let s1 = line_if(a.entrypoint != b.entrypoint, e);
    let s2 = line_if(opt_name(a.entrypoint_ref) != opt_name(b.entrypoint_ref), r);
    let s3 = link_lines(a.links(), b.links());
    let s4 = line_if(a.hard_limit_hit != b.hard_limit_hit, h);
    let s5 = line_if(
        crate::graph_diff::tips_text(a.traversal_tips@) != crate::graph_diff::tips_text(
            b.traversal_tips@,
        ),
        t,
    );
    let s6 = line_if(a.explicit_tips != b.explicit_tips, x);
    let s7 = line_if(a.managed_ws_commits@ != b.managed_ws_commits@, m);
    assert(rest == s1 + s2 + s3 + s4 + s5 + s6 + s7);
    assert forall|line: Seq<char>|
        s1.contains(line) || s2.contains(line) || s3.contains(line) || s4.contains(line)
            || s6.contains(line) implies rest.contains(line) by {
        lemma_line_among(s1, s2, line);
        lemma_line_among(s1 + s2, s3, line);
        lemma_line_among(s1 + s2 + s3, s4, line);
        lemma_line_among(s1 + s2 + s3 + s4, s5, line);
        lemma_line_among(s1 + s2 + s3 + s4 + s5, s6, line);
        lemma_line_among(s1 + s2 + s3 + s4 + s5 + s6, s7, line);
    }
    lemma_line(a.entrypoint != b.entrypoint, e, e);
    lemma_line(opt_name(a.entrypoint_ref) != opt_name(b.entrypoint_ref), r, r);
    lemma_line(a.hard_limit_hit != b.hard_limit_hit, h, h);
    lemma_line(a.explicit_tips != b.explicit_tips, x, x);
}

/// A connection that only one of two graphs has is reported as that.
pub proof fn law_reported_connection(
    a: Set<(ObjectId, ObjectId)>,
    b: Set<(ObjectId, ObjectId)>,
    pair: (ObjectId, ObjectId),
)
    requires
        a.finite(),
        b.finite(),
        a.contains(pair) != b.contains(pair),
    ensures
        ({
            let shown = "("@ + id_debug(pair.0) + ", "@ + id_debug(pair.1) + ")"@;
            link_lines(Some(a), Some(b)).contains(
                if a.contains(pair) {
                    "connected only in SELF: "@ + shown
                } else {
                    "connected only in OTHER: "@ + shown
                },
            )
        }),
{
    lemma_ascending_of_set::<(ObjectId, ObjectId)>(a);
    lemma_ascending_of_set::<(ObjectId, ObjectId)>(b);
    let (la, lb) = (ascending::<(ObjectId, ObjectId)>(a), ascending::<(ObjectId, ObjectId)>(b));
    let shown = "("@ + id_debug(pair.0) + ", "@ + id_debug(pair.1) + ")"@;
    let (ha, hb) = ("connected only in SELF: "@, "connected only in OTHER: "@);
    let line = if a.contains(pair) {
        ha + shown
    } else {
        hb + shown
    };
    let (ma, mb) = (
        missing_lines::<(ObjectId, ObjectId)>(ha, la, b),
        missing_lines::<(ObjectId, ObjectId)>(hb, lb, a),
    );
    law_missing_lines::<(ObjectId, ObjectId)>(ha, la, b, line);
    law_missing_lines::<(ObjectId, ObjectId)>(hb, lb, a, line);
    if a.contains(pair) {
        assert(la.to_set().contains(pair));
        let i = choose|i: int| 0 <= i < la.len() && la[i] == pair;
        assert(!b.contains(la[i]));
        assert(ma.contains(line));
    } else {
        assert(lb.to_set().contains(pair));
        let i = choose|i: int| 0 <= i < lb.len() && lb[i] == pair;
        assert(!a.contains(lb[i]));
        assert(mb.contains(line));
    }
    let first = link_lines(Some(a), Some(b));
    lemma_line_among(ma, mb, line);
    let limit = line_if(
        Some(a) != Some(b) && a == b,
        "connected "@ + crate::graph_diff::limit_text(Some(a)) + " != "@
            + crate::graph_diff::limit_text(Some(b)),
    );
    lemma_line_among(limit, ma + mb, line);
}

} // verus!
