//! The search visitor: report lines, display policy, and the laws of the
//! hide mode.

use vstd::prelude::*;
use crate::finder::{TextFinder, find_spec};
use crate::strings::str_eq;
use crate::tree::EventV;

verus! {

/// One line of the search report: a directory header, or the name of a
/// file whose contents matched.
pub enum OutLine {
    Dir(String),
    File(String),
}

/// The mathematical value of one report line.
pub enum LineV {
    Dir(Seq<char>),
    File(Seq<char>),
}

impl View for OutLine {
    type V = LineV;

    open spec fn view(&self) -> LineV {
        match self {
            OutLine::Dir(s) => LineV::Dir(s@),
            OutLine::File(s) => LineV::File(s@),
        }
    }
}

/// The mathematical state of the visitor.
#[verifier::ext_equal]
pub struct TfView {
    pub re: Seq<char>,
    pub last_dir: Seq<char>,
    pub curr_dir: Seq<char>,
    pub hide: bool,
    pub recurse: bool,
    pub out: Seq<LineV>,
}

/// The search application's visitor: binds a `TextFinder` to traversal
/// events and applies the display policy (`hide`: suppress a directory's
/// header until a file beneath it matches).
pub struct TfAppl {
    pub tf: TextFinder,
    pub curr_dir: String,
    pub hide: bool,
    pub recurse: bool,
    pub out: Vec<OutLine>,
}

impl View for TfAppl {
    type V = TfView;

    open spec fn view(&self) -> TfView {
        TfView {
            re: self.tf.re_str@,
            last_dir: self.tf.last_dir@,
            curr_dir: self.curr_dir@,
            hide: self.hide,
            recurse: self.recurse,
            out: self.out@.map_values(|l: OutLine| l@),
        }
    }
}

/// The lines that one event makes the visitor emit from state `v`: a
/// directory event emits its header only when hide mode is off; a file
/// event whose contents match emits the deferred header first when hide
/// mode is on and the directory was not reported yet, then the file line.
pub open spec fn step_lines(v: TfView, e: EventV) -> Seq<LineV> {
    match e {
        EventV::Dir(p) => if !v.hide {
            seq![LineV::Dir(p)]
        } else {
            Seq::empty()
        },
        EventV::File(n, c) => if find_spec(v.re, c) {
            (if v.hide && v.last_dir != v.curr_dir {
                seq![LineV::Dir(v.curr_dir)]
            } else {
                Seq::empty()
            }) + seq![LineV::File(n)]
        } else {
            Seq::empty()
        },
    }
}

/// The visitor state after one event: a directory event records the
/// current directory; a matching file event updates `last_dir` when its
/// header was just emitted.
pub open spec fn step(v: TfView, e: EventV) -> TfView {
    match e {
        EventV::Dir(p) => (TfView { curr_dir: p, out: v.out + step_lines(v, e), ..v }),
        EventV::File(n, c) => if find_spec(v.re, c) {
            (TfView {
                last_dir: if v.hide && v.last_dir != v.curr_dir {
                    v.curr_dir
                } else {
                    v.last_dir
                },
                out: v.out + step_lines(v, e),
                ..v
            })
        } else {
            v
        },
    }
}

/// The visitor state after a whole event stream.
pub open spec fn apply_events(v: TfView, evts: Seq<EventV>) -> TfView
    decreases evts.len(),
{
    if evts.len() == 0 {
        v
    } else {
        apply_events(step(v, evts[0]), evts.drop_first())
    }
}

/// The lines that a whole event stream makes the visitor emit from `v`.
pub open spec fn emitted(v: TfView, evts: Seq<EventV>) -> Seq<LineV>
    decreases evts.len(),
{
    if evts.len() == 0 {
        Seq::empty()
    } else {
        step_lines(v, evts[0]) + emitted(step(v, evts[0]), evts.drop_first())
    }
}

/// Processing a stream piecewise is processing it whole.
pub proof fn lemma_apply_events_concat(v: TfView, a: Seq<EventV>, b: Seq<EventV>)
    ensures
        apply_events(v, a + b) == apply_events(apply_events(v, a), b),
    decreases a.len(),
{
    if a.len() == 0 {
        assert(a + b =~= b);
    } else {
        assert((a + b)[0] == a[0]);
        assert((a + b).drop_first() =~= a.drop_first() + b);
        lemma_apply_events_concat(step(v, a[0]), a.drop_first(), b);
    }
}

/// The visitor only appends to its report: the final output is the old
/// output followed by the emitted lines.
pub proof fn lemma_out_grows(v: TfView, evts: Seq<EventV>)
    ensures
        apply_events(v, evts).out == v.out + emitted(v, evts),
    decreases evts.len(),
{
    if evts.len() == 0 {
        assert(v.out + Seq::<LineV>::empty() =~= v.out);
    } else {
        let v1 = step(v, evts[0]);
        lemma_out_grows(v1, evts.drop_first());
        assert(v1.out =~= v.out + step_lines(v, evts[0]));
        assert(v.out + (step_lines(v, evts[0]) + emitted(v1, evts.drop_first())) =~= (v.out
            + step_lines(v, evts[0])) + emitted(v1, evts.drop_first()));
    }
}

/// The configuration (pattern, flags) never changes during traversal.
pub proof fn lemma_config_stable(v: TfView, evts: Seq<EventV>)
    ensures
        apply_events(v, evts).re == v.re,
        apply_events(v, evts).hide == v.hide,
        apply_events(v, evts).recurse == v.recurse,
    decreases evts.len(),
{
    if evts.len() == 0 {
    } else {
        lemma_config_stable(step(v, evts[0]), evts.drop_first());
    }
}

/// The directory headers among a report's lines, in order.
pub open spec fn headers(lines: Seq<LineV>) -> Seq<Seq<char>>
    decreases lines.len(),
{
    if lines.len() == 0 {
        Seq::empty()
    } else {
        (match lines[0] {
            LineV::Dir(p) => seq![p],
            LineV::File(_) => Seq::empty(),
        }) + headers(lines.drop_first())
    }
}

/// How often the header of directory `p` stands in a report.
pub open spec fn header_count(lines: Seq<LineV>, p: Seq<char>) -> nat
    decreases lines.len(),
{
    if lines.len() == 0 {
        0
    } else {
        (if lines[0] == LineV::Dir(p) {
            1 as nat
        } else {
            0 as nat
        }) + header_count(lines.drop_first(), p)
    }
}

/// The paths of the directory events of a stream, in traversal order.
pub open spec fn dir_paths(evts: Seq<EventV>) -> Seq<Seq<char>>
    decreases evts.len(),
{
    if evts.len() == 0 {
        Seq::empty()
    } else {
        (match evts[0] {
            EventV::Dir(p) => seq![p],
            EventV::File(_, _) => Seq::empty(),
        }) + dir_paths(evts.drop_first())
    }
}

/// Whether a stream enters no directory twice.
pub open spec fn distinct_dirs(evts: Seq<EventV>) -> bool
    decreases evts.len(),
{
    if evts.len() == 0 {
        true
    } else {
        (match evts[0] {
            EventV::Dir(p) => !dir_paths(evts.drop_first()).contains(p),
            EventV::File(_, _) => true,
        }) && distinct_dirs(evts.drop_first())
    }
}

/// The directory counter counts exactly the directories entered: one per
/// entry of the stream's directory-path list.
pub proof fn lemma_count_dirs_is_paths(evts: Seq<EventV>)
    ensures
        crate::tree::count_dirs(evts) == dir_paths(evts).len(),
    decreases evts.len(),
{
    if evts.len() == 0 {
    } else {
        lemma_count_dirs_is_paths(evts.drop_first());
    }
}

pub proof fn lemma_headers_concat(a: Seq<LineV>, b: Seq<LineV>)
    ensures
        headers(a + b) == headers(a) + headers(b),
    decreases a.len(),
{
    if a.len() == 0 {
        assert(a + b =~= b);
        assert(headers(a) + headers(b) =~= headers(b));
    } else {
        assert((a + b)[0] == a[0]);
        assert((a + b).drop_first() =~= a.drop_first() + b);
        lemma_headers_concat(a.drop_first(), b);
        assert(headers(a + b) =~= headers(a) + headers(b));
    }
}

pub proof fn lemma_header_count_concat(a: Seq<LineV>, b: Seq<LineV>, p: Seq<char>)
    ensures
        header_count(a + b, p) == header_count(a, p) + header_count(b, p),
    decreases a.len(),
{
    if a.len() == 0 {
        assert(a + b =~= b);
    } else {
        assert((a + b)[0] == a[0]);
        assert((a + b).drop_first() =~= a.drop_first() + b);
        lemma_header_count_concat(a.drop_first(), b, p);
    }
}

proof fn lemma_cons_contains(x: Seq<char>, s: Seq<Seq<char>>, y: Seq<char>)
    ensures
        (seq![x] + s).contains(y) <==> (y == x || s.contains(y)),
{
    if (seq![x] + s).contains(y) {
        let k = choose|k: int| 0 <= k < (seq![x] + s).len() && (seq![x] + s)[k] == y;
        if k != 0 {
            assert(s[k - 1] == y);
        }
    }
    if y == x {
        assert((seq![x] + s)[0] == y);
    }
    if s.contains(y) {
        let k = choose|k: int| 0 <= k < s.len() && s[k] == y;
        assert((seq![x] + s)[k + 1] == y);
    }
}

/// In hide mode, a traversal that enters no directory twice (and does not
/// re-enter the directory the visitor currently stands in) never repeats a
/// directory header: each directory's header is emitted at most once, a
/// directory already reported is not reported again, and every header
/// names the current directory or one of the stream's directories.
pub proof fn lemma_hide_headers_once(v: TfView, evts: Seq<EventV>)
    requires
        v.hide,
        distinct_dirs(evts),
        !dir_paths(evts).contains(v.curr_dir),
    ensures
        forall|p: Seq<char>| #[trigger] header_count(emitted(v, evts), p) <= 1,
        v.last_dir == v.curr_dir ==> header_count(emitted(v, evts), v.curr_dir) == 0,
        forall|p: Seq<char>|
            #[trigger] header_count(emitted(v, evts), p) > 0 ==> p == v.curr_dir || dir_paths(
                evts,
            ).contains(p),
    decreases evts.len(),
{
    if evts.len() == 0 {
        assert(forall|p: Seq<char>| #[trigger] header_count(emitted(v, evts), p) == 0);
    } else {
        let e = evts[0];
        let rest = evts.drop_first();
        let v1 = step(v, e);
        let block = step_lines(v, e);
        let em = emitted(v, evts);
        let em1 = emitted(v1, rest);
        assert(em == block + em1);
        match e {
            EventV::Dir(p) => {
                assert(dir_paths(evts) == seq![p] + dir_paths(rest));
                assert(block =~= Seq::<LineV>::empty());
                assert(em =~= em1);
                assert(!dir_paths(rest).contains(p));
                assert forall|y: Seq<char>| dir_paths(rest).contains(y) implies dir_paths(
                    evts,
                ).contains(y) by {
                    lemma_cons_contains(p, dir_paths(rest), y);
                }
                lemma_cons_contains(p, dir_paths(rest), v.curr_dir);
                assert(!dir_paths(rest).contains(v1.curr_dir));
                lemma_hide_headers_once(v1, rest);
                assert forall|q: Seq<char>| #[trigger] header_count(em, q) <= 1 by {
                    assert(header_count(em, q) == header_count(em1, q));
                }
                if v.last_dir == v.curr_dir {
                    assert(v.curr_dir != p) by {
                        lemma_cons_contains(p, dir_paths(rest), v.curr_dir);
                    }
                    assert(header_count(em1, v.curr_dir) > 0 ==> v.curr_dir == v1.curr_dir
                        || dir_paths(rest).contains(v.curr_dir));
                    assert(header_count(em, v.curr_dir) == header_count(em1, v.curr_dir));
                    assert(header_count(em, v.curr_dir) == 0);
                }
                assert forall|q: Seq<char>| #[trigger] header_count(em, q) > 0 implies q
                    == v.curr_dir || dir_paths(evts).contains(q) by {
                    assert(header_count(em1, q) > 0);
                    if q == v1.curr_dir {
                        assert(dir_paths(evts)[0] == p);
                        assert(dir_paths(evts).contains(q));
                    } else {
                        assert(dir_paths(rest).contains(q));
                        lemma_cons_contains(p, dir_paths(rest), q);
                    }
                }
            },
            EventV::File(n, c) => {
                assert(dir_paths(evts) =~= dir_paths(rest));
                assert(distinct_dirs(rest));
                assert(v1.curr_dir == v.curr_dir);
                lemma_hide_headers_once(v1, rest);
                if find_spec(v.re, c) {
                    if v.last_dir != v.curr_dir {
                        assert(block =~= seq![LineV::Dir(v.curr_dir), LineV::File(n)]);
                        assert(v1.last_dir == v1.curr_dir);
                        assert(header_count(em1, v1.curr_dir) == 0);
                        assert forall|q: Seq<char>| #[trigger] header_count(block, q) == (if q
                            == v.curr_dir {
                            1 as nat
                        } else {
                            0 as nat
                        }) by {
                            reveal_with_fuel(header_count, 3);
                            assert(block.drop_first() =~= seq![LineV::File(n)]);
                            assert(block.drop_first().drop_first() =~= Seq::<LineV>::empty());
                        }
                        assert forall|q: Seq<char>| #[trigger] header_count(em, q) <= 1 by {
                            lemma_header_count_concat(block, em1, q);
                            if q == v.curr_dir {
                                assert(header_count(em1, q) == 0);
                            }
                        }
                        assert forall|q: Seq<char>| #[trigger] header_count(em, q) > 0 implies q
                            == v.curr_dir || dir_paths(evts).contains(q) by {
                            lemma_header_count_concat(block, em1, q);
                            if q != v.curr_dir {
                                assert(header_count(em1, q) > 0);
                            }
                        }
                    } else {
                        assert(block =~= seq![LineV::File(n)]);
                        assert(v1.last_dir == v.last_dir);
                        assert forall|q: Seq<char>| #[trigger] header_count(block, q) == 0 by {
                            reveal_with_fuel(header_count, 2);
                            assert(block.drop_first() =~= Seq::<LineV>::empty());
                        }
                        assert forall|q: Seq<char>| #[trigger] header_count(em, q) <= 1 by {
                            lemma_header_count_concat(block, em1, q);
                        }
                        if v.last_dir == v.curr_dir {
                            lemma_header_count_concat(block, em1, v.curr_dir);
                            assert(header_count(em, v.curr_dir) == 0);
                        }
                        assert forall|q: Seq<char>| #[trigger] header_count(em, q) > 0 implies q
                            == v.curr_dir || dir_paths(evts).contains(q) by {
                            lemma_header_count_concat(block, em1, q);
                        }
                    }
                } else {
                    assert(block =~= Seq::<LineV>::empty());
                    assert(v1 == v);
                    assert(em =~= em1);
                    assert forall|q: Seq<char>| #[trigger] header_count(em, q) <= 1 by {
                        assert(header_count(em, q) == header_count(em1, q));
                    }
                    if v.last_dir == v.curr_dir {
                        assert(header_count(em, v.curr_dir) == header_count(em1, v.curr_dir));
                    }
                    assert forall|q: Seq<char>| #[trigger] header_count(em, q) > 0 implies q
                        == v.curr_dir || dir_paths(evts).contains(q) by {
                        assert(header_count(em1, q) > 0);
                    }
                }
            },
        }
    }
}

/// In hide mode a directory header never stands alone: every header in the
/// emitted report is immediately followed by a matching file's line, so a
/// directory with no matching file produces no output at all.
pub proof fn lemma_hide_header_only_before_match(v: TfView, evts: Seq<EventV>)
    requires
        v.hide,
    ensures
        forall|i: int|
            0 <= i < emitted(v, evts).len() && (#[trigger] emitted(v, evts)[i]) is Dir ==> i + 1
                < emitted(v, evts).len() && emitted(v, evts)[i + 1] is File,
    decreases evts.len(),
{
    if evts.len() == 0 {
    } else {
        let e = evts[0];
        let rest = evts.drop_first();
        let v1 = step(v, e);
        let block = step_lines(v, e);
        let em = emitted(v, evts);
        let em1 = emitted(v1, rest);
        assert(em == block + em1);
        lemma_hide_header_only_before_match(v1, rest);
        assert forall|i: int|
            0 <= i < em.len() && (#[trigger] em[i]) is Dir implies i + 1 < em.len() && em[i + 1]
            is File by {
            if i < block.len() {
                match e {
                    EventV::Dir(_) => {
                        assert(block =~= Seq::<LineV>::empty());
                    },
                    EventV::File(n, c) => {
                        if find_spec(v.re, c) {
                            if v.last_dir != v.curr_dir {
                                assert(block =~= seq![LineV::Dir(v.curr_dir), LineV::File(n)]);
                                assert(i == 0);
                                assert(em[1] == block[1]);
                            } else {
                                assert(block =~= seq![LineV::File(n)]);
                            }
                        } else {
                            assert(block =~= Seq::<LineV>::empty());
                        }
                    },
                }
            } else {
                assert(em[i] == em1[i - block.len()]);
                assert(em1[i - block.len()] is Dir);
                assert(i - block.len() + 1 < em1.len());
                assert(em[i + 1] == em1[i - block.len() + 1]);
            }
        }
    }
}

/// With hide mode off, the emitted headers are exactly the directories
/// entered, in order, and the last-reported directory is never touched.
pub proof fn lemma_show_mode_reports_every_dir(v: TfView, evts: Seq<EventV>)
    requires
        !v.hide,
    ensures
        headers(emitted(v, evts)) == dir_paths(evts),
        apply_events(v, evts).last_dir == v.last_dir,
    decreases evts.len(),
{
    if evts.len() == 0 {
        assert(headers(emitted(v, evts)) =~= dir_paths(evts));
    } else {
        let e = evts[0];
        let rest = evts.drop_first();
        let v1 = step(v, e);
        let block = step_lines(v, e);
        assert(v1.hide == v.hide);
        lemma_show_mode_reports_every_dir(v1, rest);
        lemma_headers_concat(block, emitted(v1, rest));
        match e {
            EventV::Dir(p) => {
                assert(block =~= seq![LineV::Dir(p)]);
                assert(headers(block) =~= seq![p]) by {
                    reveal_with_fuel(headers, 2);
                    assert(block.drop_first() =~= Seq::<LineV>::empty());
                }
                assert(v1.last_dir == v.last_dir);
                assert(headers(emitted(v, evts)) =~= dir_paths(evts));
            },
            EventV::File(n, c) => {
                assert(dir_paths(evts) =~= dir_paths(rest));
                if find_spec(v.re, c) {
                    assert(block =~= seq![LineV::File(n)]);
                    assert(headers(block) =~= Seq::<Seq<char>>::empty()) by {
                        reveal_with_fuel(headers, 2);
                        assert(block.drop_first() =~= Seq::<LineV>::empty());
                    }
                    assert(v1.last_dir == v.last_dir);
                } else {
                    assert(block =~= Seq::<LineV>::empty());
                    assert(v1 == v);
                }
                assert(headers(emitted(v, evts)) =~= dir_paths(evts));
            },
        }
    }
}

impl TfAppl {
    pub fn new() -> (r: TfAppl)
        ensures
            r@.re == Seq::<char>::empty(),
            r@.last_dir == Seq::<char>::empty(),
            r@.curr_dir == Seq::<char>::empty(),
            r@.hide == true,
            r@.recurse == true,
            r@.out == Seq::<LineV>::empty(),
    {
        let r = TfAppl {
            tf: TextFinder::new(),
            curr_dir: String::new(),
            hide: true,
            recurse: true,
            out: Vec::new(),
        };
        proof {
            assert(r@.out =~= Seq::<LineV>::empty());
        }
        r
    }

    pub fn recurse(&mut self, p: bool)
        ensures
            final(self)@ == (TfView { recurse: p, ..old(self)@ }),
    {
        self.recurse = p;
        proof {
            assert(self@ =~= (TfView { recurse: p, ..old(self)@ }));
        }
    }

    pub fn get_recurse(&self) -> (r: bool)
        ensures
            r == self@.recurse,
    {
        self.recurse
    }

    pub fn set_hide(&mut self, p: bool)
        ensures
            final(self)@ == (TfView { hide: p, ..old(self)@ }),
    {
        self.hide = p;
        proof {
            assert(self@ =~= (TfView { hide: p, ..old(self)@ }));
        }
    }

    pub fn get_hide(&self) -> (r: bool)
        ensures
            r == self@.hide,
    {
        self.hide
    }

    pub fn regex(&mut self, s: &str)
        ensures
            final(self)@ == (TfView { re: s@, ..old(self)@ }),
    {
        self.tf.regex(s);
        proof {
            assert(self@ =~= (TfView { re: s@, ..old(self)@ }));
        }
    }

    pub fn get_regex(&self) -> (r: &str)
        ensures
            r@ == self@.re,
    {
        self.tf.get_regex()
    }

    /// A directory was entered: remember it, and report it at once when
    /// hide mode is off.
    pub fn do_dir(&mut self, d: &str)
        ensures
            final(self)@ == step(old(self)@, EventV::Dir(d@)),
    {
        self.curr_dir = d.to_owned();
        if !self.hide {
            self.out.push(OutLine::Dir(d.to_owned()));
        }
        proof {
            assert(self@.out =~= step(old(self)@, EventV::Dir(d@)).out);
            assert(self@ =~= step(old(self)@, EventV::Dir(d@)));
        }
    }

    /// A file with a matching extension was found in the current
    /// directory: report it when its contents match, preceded by the
    /// directory's deferred header when hide mode is on and the directory
    /// was not reported yet.
    pub fn do_file(&mut self, f: &str, content: &Option<Vec<u8>>)
        ensures
            final(self)@ == step(old(self)@, EventV::File(f@, content.deep_view())),
    {
        let ghost e = EventV::File(f@, content.deep_view());
        if self.tf.find(content) {
            if self.hide && !str_eq(self.tf.get_last_path(), self.curr_dir.as_str()) {
                let cd = self.curr_dir.clone();
                self.out.push(OutLine::Dir(cd.clone()));
                self.tf.last_path(cd.as_str());
            }
            self.out.push(OutLine::File(f.to_owned()));
            proof {
                assert(self@.out =~= step(old(self)@, e).out);
                assert(self@ =~= step(old(self)@, e));
            }
        } else {
            proof {
                assert(self@ =~= step(old(self)@, e));
            }
        }
    }
}

} // verus!
