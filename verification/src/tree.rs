//! The directory snapshot a traversal walks, and the event streams it
//! produces.

use vstd::prelude::*;
use crate::strings::ext_of;

verus! {

/// One file of a directory snapshot: its name and the outcome of reading
/// its bytes (`None` when the read failed).
pub struct FileNode {
    pub name: String,
    pub content: Option<Vec<u8>>,
}

/// One directory of a snapshot: its name (for the root, the full root path),
/// its files, and its subdirectories.
pub struct DirNode {
    pub name: String,
    pub files: Vec<FileNode>,
    pub subdirs: Vec<DirNode>,
}

/// A traversal event: a directory entered, with its full path, or a file
/// whose extension matched, with its name and read outcome.
pub enum EventV {
    Dir(Seq<char>),
    File(Seq<char>, Option<Seq<u8>>),
}

/// Whether a file name's extension is one of the configured patterns.
pub open spec fn ext_matches(name: Seq<char>, pats: Seq<Seq<char>>) -> bool {
    pats.contains(ext_of(name))
}

/// The file events that one directory's file list produces, in order.
pub open spec fn file_events(files: Seq<FileNode>, pats: Seq<Seq<char>>) -> Seq<EventV>
    decreases files.len(),
{
    if files.len() == 0 {
        Seq::empty()
    } else {
        (if ext_matches(files[0].name@, pats) {
            seq![EventV::File(files[0].name@, files[0].content.deep_view())]
        } else {
            Seq::empty()
        }) + file_events(files.drop_first(), pats)
    }
}

/// The full event stream of a depth-first, pre-order traversal of `d`,
/// reached under the path `path`: the directory itself, then its matching
/// files, then (when `recurse` is set) each subdirectory in turn.
pub open spec fn events_of(d: DirNode, path: Seq<char>, pats: Seq<Seq<char>>, recurse: bool) -> Seq<
    EventV,
>
    decreases d,
{
    seq![EventV::Dir(path)] + file_events(d.files@, pats) + (if recurse {
        subdir_events(d.subdirs@, path, pats)
    } else {
        Seq::empty()
    })
}

/// The events of a list of sibling subdirectories of the directory at
/// `parent`, visited in order.
pub open spec fn subdir_events(subs: Seq<DirNode>, parent: Seq<char>, pats: Seq<Seq<char>>) -> Seq<
    EventV,
>
    decreases subs,
{
    if subs.len() == 0 {
        Seq::empty()
    } else {
        events_of(subs[0], parent + seq!['/'] + subs[0].name@, pats, true) + subdir_events(
            subs.drop_first(),
            parent,
            pats,
        )
    }
}

/// How many directory events a stream holds.
pub open spec fn count_dirs(evts: Seq<EventV>) -> nat
    decreases evts.len(),
{
    if evts.len() == 0 {
        0
    } else {
        (match evts[0] {
            EventV::Dir(_) => 1 as nat,
            EventV::File(_, _) => 0 as nat,
        }) + count_dirs(evts.drop_first())
    }
}

/// How many file events a stream holds.
pub open spec fn count_files(evts: Seq<EventV>) -> nat
    decreases evts.len(),
{
    if evts.len() == 0 {
        0
    } else {
        (match evts[0] {
            EventV::Dir(_) => 0 as nat,
            EventV::File(_, _) => 1 as nat,
        }) + count_files(evts.drop_first())
    }
}

pub proof fn lemma_count_dirs_concat(a: Seq<EventV>, b: Seq<EventV>)
    ensures
        count_dirs(a + b) == count_dirs(a) + count_dirs(b),
    decreases a.len(),
{
    if a.len() == 0 {
        assert(a + b =~= b);
    } else {
        assert((a + b)[0] == a[0]);
        assert((a + b).drop_first() =~= a.drop_first() + b);
        lemma_count_dirs_concat(a.drop_first(), b);
    }
}

pub proof fn lemma_count_files_concat(a: Seq<EventV>, b: Seq<EventV>)
    ensures
        count_files(a + b) == count_files(a) + count_files(b),
    decreases a.len(),
{
    if a.len() == 0 {
        assert(a + b =~= b);
    } else {
        assert((a + b)[0] == a[0]);
        assert((a + b).drop_first() =~= a.drop_first() + b);
        lemma_count_files_concat(a.drop_first(), b);
    }
}

pub proof fn lemma_file_events_concat(a: Seq<FileNode>, b: Seq<FileNode>, pats: Seq<Seq<char>>)
    ensures
        file_events(a + b, pats) == file_events(a, pats) + file_events(b, pats),
    decreases a.len(),
{
    if a.len() == 0 {
        assert(a + b =~= b);
        assert(file_events(a, pats) + file_events(b, pats) =~= file_events(b, pats));
    } else {
        assert((a + b)[0] == a[0]);
        assert((a + b).drop_first() =~= a.drop_first() + b);
        lemma_file_events_concat(a.drop_first(), b, pats);
        assert(file_events(a + b, pats) =~= file_events(a, pats) + file_events(b, pats));
    }
}

/// Appending one file to a list appends its events (one event when the
/// extension matches, none otherwise).
pub proof fn lemma_file_events_push(s: Seq<FileNode>, x: FileNode, pats: Seq<Seq<char>>)
    ensures
        file_events(s.push(x), pats) == file_events(s, pats) + (if ext_matches(x.name@, pats) {
            seq![EventV::File(x.name@, x.content.deep_view())]
        } else {
            Seq::<EventV>::empty()
        }),
{
    assert(s.push(x) =~= s + seq![x]);
    lemma_file_events_concat(s, seq![x], pats);
    assert(seq![x].drop_first() =~= Seq::<FileNode>::empty());
    assert(file_events(seq![x], pats) =~= (if ext_matches(x.name@, pats) {
        seq![EventV::File(x.name@, x.content.deep_view())]
    } else {
        Seq::<EventV>::empty()
    })) by {
        reveal_with_fuel(file_events, 2);
    }
}

pub proof fn lemma_subdir_events_concat(
    a: Seq<DirNode>,
    b: Seq<DirNode>,
    parent: Seq<char>,
    pats: Seq<Seq<char>>,
)
    ensures
        subdir_events(a + b, parent, pats) == subdir_events(a, parent, pats) + subdir_events(
            b,
            parent,
            pats,
        ),
    decreases a.len(),
{
    if a.len() == 0 {
        assert(a + b =~= b);
        assert(subdir_events(a, parent, pats) + subdir_events(b, parent, pats) =~= subdir_events(
            b,
            parent,
            pats,
        ));
    } else {
        assert((a + b)[0] == a[0]);
        assert((a + b).drop_first() =~= a.drop_first() + b);
        lemma_subdir_events_concat(a.drop_first(), b, parent, pats);
        assert(subdir_events(a + b, parent, pats) =~= subdir_events(a, parent, pats)
            + subdir_events(b, parent, pats));
    }
}

/// Appending one subdirectory appends that subdirectory's whole event stream.
pub proof fn lemma_subdir_events_push(
    s: Seq<DirNode>,
    x: DirNode,
    parent: Seq<char>,
    pats: Seq<Seq<char>>,
)
    ensures
        subdir_events(s.push(x), parent, pats) == subdir_events(s, parent, pats) + events_of(
            x,
            parent + seq!['/'] + x.name@,
            pats,
            true,
        ),
{
    assert(s.push(x) =~= s + seq![x]);
    lemma_subdir_events_concat(s, seq![x], parent, pats);
    assert(seq![x].drop_first() =~= Seq::<DirNode>::empty());
    assert(subdir_events(seq![x], parent, pats) =~= events_of(
        x,
        parent + seq!['/'] + x.name@,
        pats,
        true,
    )) by {
        reveal_with_fuel(subdir_events, 2);
    }
}

/// Whether an event is a file event drawn from the given file list.
pub open spec fn file_source(e: EventV, files: Seq<FileNode>, pats: Seq<Seq<char>>) -> bool {
    match e {
        EventV::Dir(_) => false,
        EventV::File(n, c) => exists|m: int|
            0 <= m < files.len() && files[m].name@ == n && files[m].content.deep_view() == c
                && ext_matches(files[m].name@, pats),
    }
}

/// Every event of `file_events` is a file event for one of the listed
/// files whose extension matches.
pub proof fn lemma_file_events_sources(files: Seq<FileNode>, pats: Seq<Seq<char>>, k: int)
    requires
        0 <= k < file_events(files, pats).len(),
    ensures
        file_source(file_events(files, pats)[k], files, pats),
    decreases files.len(),
{
    let evts = file_events(files, pats);
    let rest = files.drop_first();
    if ext_matches(files[0].name@, pats) {
        if k == 0 {
            assert(evts[0] == EventV::File(files[0].name@, files[0].content.deep_view()));
            assert(0 <= 0 < files.len() && files[0].name@ == files[0].name@ && files[0].content.deep_view()
                == files[0].content.deep_view() && ext_matches(files[0].name@, pats));
        } else {
            lemma_file_events_sources(rest, pats, k - 1);
            assert(evts[k] == file_events(rest, pats)[k - 1]);
            if let EventV::File(n, c) = evts[k] {
                let m = choose|m: int|
                    0 <= m < rest.len() && rest[m].name@ == n && rest[m].content.deep_view() == c
                        && ext_matches(rest[m].name@, pats);
                assert(files[m + 1] == rest[m]);
            }
        }
    } else {
        lemma_file_events_sources(rest, pats, k);
        assert(evts[k] == file_events(rest, pats)[k]);
        if let EventV::File(n, c) = evts[k] {
            let m = choose|m: int|
                0 <= m < rest.len() && rest[m].name@ == n && rest[m].content.deep_view() == c
                    && ext_matches(rest[m].name@, pats);
            assert(files[m + 1] == rest[m]);
        }
    }
}

/// With recursion switched off, a traversal never leaves the root: it
/// dispatches exactly one directory event, for the root itself, and every
/// file event names one of the root directory's own files.
pub proof fn lemma_no_recurse_stays_at_root(d: DirNode, path: Seq<char>, pats: Seq<Seq<char>>)
    ensures
        events_of(d, path, pats, false) == seq![EventV::Dir(path)] + file_events(d.files@, pats),
        count_dirs(events_of(d, path, pats, false)) == 1,
        forall|k: int|
            1 <= k < events_of(d, path, pats, false).len() ==> file_source(
                #[trigger] events_of(d, path, pats, false)[k],
                d.files@,
                pats,
            ),
{
    let evts = events_of(d, path, pats, false);
    let fevts = file_events(d.files@, pats);
    assert(evts =~= seq![EventV::Dir(path)] + fevts);
    lemma_count_dirs_concat(seq![EventV::Dir(path)], fevts);
    assert(seq![EventV::Dir(path)].drop_first() =~= Seq::<EventV>::empty());
    assert(count_dirs(seq![EventV::Dir(path)]) == 1) by {
        reveal_with_fuel(count_dirs, 2);
    }
    lemma_file_events_no_dirs(d.files@, pats);
    assert forall|k: int| 1 <= k < evts.len() implies file_source(evts[k], d.files@, pats) by {
        assert(evts[k] == fevts[k - 1]);
        lemma_file_events_sources(d.files@, pats, k - 1);
    }
}

/// A file list produces file events only.
pub proof fn lemma_file_events_no_dirs(files: Seq<FileNode>, pats: Seq<Seq<char>>)
    ensures
        count_dirs(file_events(files, pats)) == 0,
    decreases files.len(),
{
    if files.len() == 0 {
    } else {
        lemma_file_events_no_dirs(files.drop_first(), pats);
        if ext_matches(files[0].name@, pats) {
            let e = EventV::File(files[0].name@, files[0].content.deep_view());
            lemma_count_dirs_concat(seq![e], file_events(files.drop_first(), pats));
            assert(count_dirs(seq![e]) == 0) by {
                reveal_with_fuel(count_dirs, 2);
            }
        } else {
            assert(Seq::<EventV>::empty() + file_events(files.drop_first(), pats) =~= file_events(
                files.drop_first(),
                pats,
            ));
        }
    }
}

} // verus!
