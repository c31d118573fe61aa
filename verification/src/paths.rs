//! Uniqueness of traversal paths: a well-formed snapshot is entered at
//! most once per directory.

use vstd::prelude::*;
use crate::appl::{
    TfView, dir_paths, distinct_dirs, emitted, header_count, lemma_hide_headers_once,
};
use crate::tree::{DirNode, EventV, events_of, file_events, subdir_events, ext_matches};

verus! {

/// A name that can stand as one path segment: it holds no separator.
pub open spec fn clean_name(n: Seq<char>) -> bool {
    forall|i: int| 0 <= i < n.len() ==> n[i] != '/'
}

/// A snapshot as a real filesystem delivers it: within every directory the
/// subdirectory names are pairwise distinct, and none holds a separator.
pub open spec fn wf_tree(d: DirNode) -> bool
    decreases d,
{
    &&& (forall|i: int, j: int|
        0 <= i < j < d.subdirs@.len() ==> d.subdirs@[i].name@ != d.subdirs@[j].name@)
    &&& (forall|i: int| 0 <= i < d.subdirs@.len() ==> clean_name(d.subdirs@[i].name@))
    &&& (forall|i: int| 0 <= i < d.subdirs@.len() ==> wf_tree(#[trigger] d.subdirs@[i]))
}

/// Whether path `q` lies in the subtree rooted at path `base`: it is the
/// base itself, or extends it across a separator.
pub open spec fn in_subtree(q: Seq<char>, base: Seq<char>) -> bool {
    q == base || (q.len() > base.len() && q.take(base.len() as int) == base && q[base.len() as int]
        == '/')
}

/// Whether no string stands twice in the list.
pub open spec fn all_distinct(s: Seq<Seq<char>>) -> bool {
    forall|i: int, j: int| 0 <= i < j < s.len() ==> s[i] != s[j]
}

proof fn lemma_subtree_prefix(q: Seq<char>, b: Seq<char>)
    requires
        in_subtree(q, b),
    ensures
        b.len() <= q.len(),
        forall|k: int| 0 <= k < b.len() ==> q[k] == b[k],
        q.len() > b.len() ==> q[b.len() as int] == '/',
{
    if q == b {
    } else {
        assert forall|k: int| 0 <= k < b.len() implies q[k] == b[k] by {
            assert(q.take(b.len() as int)[k] == q[k]);
        }
    }
}

/// Paths inside a child's subtree lie inside the parent's subtree.
proof fn lemma_subtree_step(q: Seq<char>, p: Seq<char>, n: Seq<char>)
    requires
        in_subtree(q, p + seq!['/'] + n),
    ensures
        in_subtree(q, p),
        q.len() > p.len(),
{
    let b = p + seq!['/'] + n;
    lemma_subtree_prefix(q, b);
    assert(b[p.len() as int] == '/');
    assert forall|k: int| 0 <= k < p.len() implies b[k] == p[k] by {}
    assert(q.take(p.len() as int) =~= p);
    assert(q[p.len() as int] == '/');
}

/// Subtrees rooted under sibling names of different lengths are disjoint
/// (the shorter name comes first).
proof fn lemma_separate_asym(
    p: Seq<char>,
    ns: Seq<char>,
    nl: Seq<char>,
    q1: Seq<char>,
    q2: Seq<char>,
)
    requires
        clean_name(nl),
        ns.len() < nl.len(),
        in_subtree(q1, p + seq!['/'] + ns),
        in_subtree(q2, p + seq!['/'] + nl),
    ensures
        q1 != q2,
{
    if q1 == q2 {
        let b1 = p + seq!['/'] + ns;
        let b2 = p + seq!['/'] + nl;
        lemma_subtree_prefix(q1, b1);
        lemma_subtree_prefix(q2, b2);
        let pos = b1.len() as int;
        assert(pos < b2.len());
        assert(q2[pos] == b2[pos]);
        assert(b2[pos] == nl[pos - (p.len() + 1)]);
        assert(b2[pos] != '/');
        assert(q1.len() >= b2.len() > b1.len());
        assert(q1[pos] == '/');
        assert(false);
    }
}

proof fn lemma_separate_branches(
    p: Seq<char>,
    n1: Seq<char>,
    n2: Seq<char>,
    q1: Seq<char>,
    q2: Seq<char>,
)
    requires
        clean_name(n1),
        clean_name(n2),
        n1 != n2,
        in_subtree(q1, p + seq!['/'] + n1),
        in_subtree(q2, p + seq!['/'] + n2),
    ensures
        q1 != q2,
{
    if q1 == q2 {
        if n1.len() == n2.len() {
            lemma_subtree_prefix(q1, p + seq!['/'] + n1);
            lemma_subtree_prefix(q2, p + seq!['/'] + n2);
            assert forall|t: int| 0 <= t < n1.len() implies n1[t] == n2[t] by {
                let k = p.len() + 1 + t;
                assert((p + seq!['/'] + n1)[k] == n1[t]);
                assert((p + seq!['/'] + n2)[k] == n2[t]);
                assert(q1[k] == (p + seq!['/'] + n1)[k]);
                assert(q2[k] == (p + seq!['/'] + n2)[k]);
            }
            assert(n1 =~= n2);
        } else if n1.len() < n2.len() {
            lemma_separate_asym(p, n1, n2, q1, q2);
        } else {
            lemma_separate_asym(p, n2, n1, q2, q1);
        }
    }
}

pub proof fn lemma_dir_paths_concat(a: Seq<EventV>, b: Seq<EventV>)
    ensures
        dir_paths(a + b) == dir_paths(a) + dir_paths(b),
    decreases a.len(),
{
    if a.len() == 0 {
        assert(a + b =~= b);
        assert(dir_paths(a) + dir_paths(b) =~= dir_paths(b));
    } else {
        assert((a + b)[0] == a[0]);
        assert((a + b).drop_first() =~= a.drop_first() + b);
        lemma_dir_paths_concat(a.drop_first(), b);
        assert(dir_paths(a + b) =~= dir_paths(a) + dir_paths(b));
    }
}

proof fn lemma_dir_paths_of_file_events(files: Seq<crate::tree::FileNode>, pats: Seq<Seq<char>>)
    ensures
        dir_paths(file_events(files, pats)) == Seq::<Seq<char>>::empty(),
    decreases files.len(),
{
    if files.len() == 0 {
    } else {
        lemma_dir_paths_of_file_events(files.drop_first(), pats);
        if ext_matches(files[0].name@, pats) {
            let e = EventV::File(files[0].name@, files[0].content.deep_view());
            lemma_dir_paths_concat(seq![e], file_events(files.drop_first(), pats));
            assert(dir_paths(seq![e]) =~= Seq::<Seq<char>>::empty()) by {
                reveal_with_fuel(dir_paths, 2);
                assert(seq![e].drop_first() =~= Seq::<EventV>::empty());
            }
            assert(dir_paths(file_events(files, pats)) =~= Seq::<Seq<char>>::empty());
        } else {
            assert(Seq::<EventV>::empty() + file_events(files.drop_first(), pats) =~= file_events(
                files.drop_first(),
                pats,
            ));
        }
    }
}

/// The directories of a traversal's event stream: the root path, followed
/// by the subdirectories' paths when recursion is on.
pub proof fn lemma_dir_paths_of_events(d: DirNode, p: Seq<char>, pats: Seq<Seq<char>>, rec: bool)
    ensures
        dir_paths(events_of(d, p, pats, rec)) == seq![p] + (if rec {
            dir_paths(subdir_events(d.subdirs@, p, pats))
        } else {
            Seq::<Seq<char>>::empty()
        }),
{
    let hd = seq![EventV::Dir(p)];
    let fevts = file_events(d.files@, pats);
    let tail = if rec {
        subdir_events(d.subdirs@, p, pats)
    } else {
        Seq::<EventV>::empty()
    };
    assert(events_of(d, p, pats, rec) == hd + fevts + tail);
    lemma_dir_paths_concat(hd + fevts, tail);
    lemma_dir_paths_concat(hd, fevts);
    lemma_dir_paths_of_file_events(d.files@, pats);
    assert(dir_paths(hd) =~= seq![p]) by {
        reveal_with_fuel(dir_paths, 2);
        assert(hd.drop_first() =~= Seq::<EventV>::empty());
    }
    if rec {
        assert(dir_paths(events_of(d, p, pats, rec)) =~= seq![p] + dir_paths(
            subdir_events(d.subdirs@, p, pats),
        ));
    } else {
        assert(dir_paths(tail) =~= Seq::<Seq<char>>::empty());
        assert(dir_paths(events_of(d, p, pats, rec)) =~= seq![p]);
        assert(seq![p] + Seq::<Seq<char>>::empty() =~= seq![p]);
    }
}

/// Every directory path of a traversal lies in the root's subtree.
proof fn lemma_paths_in_subtree(d: DirNode, p: Seq<char>, pats: Seq<Seq<char>>, rec: bool, q: Seq<char>)
    requires
        dir_paths(events_of(d, p, pats, rec)).contains(q),
    ensures
        in_subtree(q, p),
    decreases d,
{
    lemma_dir_paths_of_events(d, p, pats, rec);
    let tail = if rec {
        dir_paths(subdir_events(d.subdirs@, p, pats))
    } else {
        Seq::<Seq<char>>::empty()
    };
    let k = choose|k: int|
        0 <= k < (seq![p] + tail).len() && (seq![p] + tail)[k] == q;
    if k == 0 {
    } else {
        assert(tail[k - 1] == q);
        assert(tail.contains(q));
        let m = lemma_paths_in_subtree_list(d.subdirs@, p, pats, q);
        lemma_subtree_step(q, p, d.subdirs@[m].name@);
    }
}

/// Every directory path of a sibling list's events lies in the subtree of
/// one of the siblings; the lemma returns which.
proof fn lemma_paths_in_subtree_list(
    subs: Seq<DirNode>,
    p: Seq<char>,
    pats: Seq<Seq<char>>,
    q: Seq<char>,
) -> (k: int)
    requires
        dir_paths(subdir_events(subs, p, pats)).contains(q),
    ensures
        0 <= k < subs.len(),
        in_subtree(q, p + seq!['/'] + subs[k].name@),
    decreases subs,
{
    assert(subs.len() > 0) by {
        if subs.len() == 0 {
            assert(dir_paths(subdir_events(subs, p, pats)) =~= Seq::<Seq<char>>::empty());
        }
    }
    let head_evts = events_of(subs[0], p + seq!['/'] + subs[0].name@, pats, true);
    let rest_evts = subdir_events(subs.drop_first(), p, pats);
    assert(subdir_events(subs, p, pats) == head_evts + rest_evts);
    lemma_dir_paths_concat(head_evts, rest_evts);
    let dp = dir_paths(head_evts) + dir_paths(rest_evts);
    let j = choose|j: int| 0 <= j < dp.len() && dp[j] == q;
    if j < dir_paths(head_evts).len() {
        assert(dir_paths(head_evts)[j] == q);
        assert(dir_paths(head_evts).contains(q));
        lemma_paths_in_subtree(subs[0], p + seq!['/'] + subs[0].name@, pats, true, q);
        0
    } else {
        assert(dir_paths(rest_evts)[j - dir_paths(head_evts).len()] == q);
        assert(dir_paths(rest_evts).contains(q));
        let k0 = lemma_paths_in_subtree_list(subs.drop_first(), p, pats, q);
        assert(subs.drop_first()[k0] == subs[k0 + 1]);
        k0 + 1
    }
}

proof fn lemma_all_distinct_concat(a: Seq<Seq<char>>, b: Seq<Seq<char>>)
    requires
        all_distinct(a),
        all_distinct(b),
        forall|x: Seq<char>| a.contains(x) ==> !b.contains(x),
    ensures
        all_distinct(a + b),
{
    assert forall|i: int, j: int| 0 <= i < j < (a + b).len() implies (a + b)[i] != (a + b)[j] by {
        if j < a.len() {
        } else if i >= a.len() {
            assert((a + b)[i] == b[i - a.len()]);
            assert((a + b)[j] == b[j - a.len()]);
        } else {
            assert((a + b)[i] == a[i]);
            assert((a + b)[j] == b[j - a.len()]);
            assert(a.contains(a[i]));
            if a[i] == b[j - a.len()] {
                assert(b.contains(a[i]));
            }
        }
    }
}

/// A well-formed snapshot is traversed with pairwise-distinct directory
/// paths.
proof fn lemma_paths_all_distinct(d: DirNode, p: Seq<char>, pats: Seq<Seq<char>>, rec: bool)
    requires
        wf_tree(d),
    ensures
        all_distinct(dir_paths(events_of(d, p, pats, rec))),
    decreases d,
{
    lemma_dir_paths_of_events(d, p, pats, rec);
    if rec {
        let tail = dir_paths(subdir_events(d.subdirs@, p, pats));
        lemma_paths_all_distinct_list(d.subdirs@, p, pats);
        assert forall|x: Seq<char>| seq![p].contains(x) implies !tail.contains(x) by {
            assert(x == p);
            if tail.contains(p) {
                let m = lemma_paths_in_subtree_list(d.subdirs@, p, pats, p);
                lemma_subtree_step(p, p, d.subdirs@[m].name@);
            }
        }
        assert(all_distinct(seq![p]));
        lemma_all_distinct_concat(seq![p], tail);
    } else {
        assert(seq![p] + Seq::<Seq<char>>::empty() =~= seq![p]);
        assert(all_distinct(seq![p]));
    }
}

proof fn lemma_paths_all_distinct_list(subs: Seq<DirNode>, p: Seq<char>, pats: Seq<Seq<char>>)
    requires
        forall|i: int, j: int| 0 <= i < j < subs.len() ==> subs[i].name@ != subs[j].name@,
        forall|i: int| 0 <= i < subs.len() ==> clean_name(subs[i].name@),
        forall|i: int| 0 <= i < subs.len() ==> wf_tree(#[trigger] subs[i]),
    ensures
        all_distinct(dir_paths(subdir_events(subs, p, pats))),
    decreases subs,
{
    if subs.len() == 0 {
        assert(dir_paths(subdir_events(subs, p, pats)) =~= Seq::<Seq<char>>::empty());
    } else {
        let b0 = p + seq!['/'] + subs[0].name@;
        let head_evts = events_of(subs[0], b0, pats, true);
        let rest = subs.drop_first();
        let rest_evts = subdir_events(rest, p, pats);
        assert(subdir_events(subs, p, pats) == head_evts + rest_evts);
        lemma_dir_paths_concat(head_evts, rest_evts);
        assert(forall|i: int| 0 <= i < rest.len() ==> rest[i] == subs[i + 1]);
        lemma_paths_all_distinct(subs[0], b0, pats, true);
        lemma_paths_all_distinct_list(rest, p, pats);
        assert forall|x: Seq<char>| dir_paths(head_evts).contains(x) implies !dir_paths(
            rest_evts,
        ).contains(x) by {
            lemma_paths_in_subtree(subs[0], b0, pats, true, x);
            if dir_paths(rest_evts).contains(x) {
                let k = lemma_paths_in_subtree_list(rest, p, pats, x);
                assert(rest[k] == subs[k + 1]);
                lemma_separate_branches(p, subs[0].name@, subs[k + 1].name@, x, x);
            }
        }
        lemma_all_distinct_concat(dir_paths(head_evts), dir_paths(rest_evts));
    }
}

/// Pairwise-distinct directory paths give the stream form of distinctness.
proof fn lemma_distinct_from_all_distinct(evts: Seq<EventV>)
    requires
        all_distinct(dir_paths(evts)),
    ensures
        distinct_dirs(evts),
    decreases evts.len(),
{
    if evts.len() == 0 {
    } else {
        let rest = evts.drop_first();
        match evts[0] {
            EventV::Dir(p) => {
                assert(dir_paths(evts) == seq![p] + dir_paths(rest));
                assert forall|i: int, j: int|
                    0 <= i < j < dir_paths(rest).len() implies dir_paths(rest)[i] != dir_paths(
                    rest,
                )[j] by {
                    assert(dir_paths(rest)[i] == dir_paths(evts)[i + 1]);
                    assert(dir_paths(rest)[j] == dir_paths(evts)[j + 1]);
                }
                lemma_distinct_from_all_distinct(rest);
                if dir_paths(rest).contains(p) {
                    let k = choose|k: int|
                        0 <= k < dir_paths(rest).len() && dir_paths(rest)[k] == p;
                    assert(dir_paths(evts)[k + 1] == p);
                    assert(dir_paths(evts)[0] == p);
                }
            },
            EventV::File(_, _) => {
                assert(dir_paths(evts) =~= dir_paths(rest));
                lemma_distinct_from_all_distinct(rest);
            },
        }
    }
}

/// A well-formed snapshot is entered at most once per directory: its
/// traversal's event stream never repeats a directory path. Together with
/// the hide-mode law on the visitor, this gives: over such a snapshot a
/// directory header is emitted at most once per directory.
pub proof fn lemma_traversal_dirs_distinct(
    d: DirNode,
    p: Seq<char>,
    pats: Seq<Seq<char>>,
    rec: bool,
)
    requires
        wf_tree(d),
    ensures
        distinct_dirs(events_of(d, p, pats, rec)),
{
    lemma_paths_all_distinct(d, p, pats, rec);
    lemma_distinct_from_all_distinct(events_of(d, p, pats, rec));
}

/// Hide mode over a real directory tree: a visitor that has not yet
/// entered any directory, traversing a well-formed snapshot under a
/// non-empty root path, emits every directory header at most once, and
/// each header names one of the traversal's directories.
pub proof fn lemma_fresh_visit_headers_once(
    v: TfView,
    d: DirNode,
    p: Seq<char>,
    pats: Seq<Seq<char>>,
    rec: bool,
)
    requires
        v.hide,
        wf_tree(d),
        v.curr_dir == Seq::<char>::empty(),
        p.len() > 0,
    ensures
        forall|q: Seq<char>| #[trigger] header_count(emitted(v, events_of(d, p, pats, rec)), q)
            <= 1,
        forall|q: Seq<char>|
            #[trigger] header_count(emitted(v, events_of(d, p, pats, rec)), q) > 0 ==> q
                == v.curr_dir || dir_paths(events_of(d, p, pats, rec)).contains(q),
{
    let evts = events_of(d, p, pats, rec);
    lemma_traversal_dirs_distinct(d, p, pats, rec);
    assert(!dir_paths(evts).contains(v.curr_dir)) by {
        if dir_paths(evts).contains(v.curr_dir) {
            lemma_paths_in_subtree(d, p, pats, rec, v.curr_dir);
            lemma_subtree_prefix(v.curr_dir, p);
        }
    }
    lemma_hide_headers_once(v, evts);
}

} // verus!
