//! Character-level helpers: file-name extensions, equality, path joining.

use vstd::prelude::*;

verus! {

/// Whether the name holds a `.` anywhere.
pub open spec fn has_dot(name: Seq<char>) -> bool {
    exists|i: int| 0 <= i < name.len() && name[i] == '.'
}

/// The extension of a file name: the characters after the last `.`,
/// or the empty sequence when the name holds no `.` at all.
pub open spec fn ext_of(name: Seq<char>) -> Seq<char>
    decreases name.len(),
{
    if !has_dot(name) {
        Seq::empty()
    } else if name.last() == '.' {
        Seq::empty()
    } else {
        ext_of(name.drop_last()) + seq![name.last()]
    }
}

proof fn lemma_ext_no_dot(name: Seq<char>)
    requires
        forall|k: int| 0 <= k < name.len() ==> name[k] != '.',
    ensures
        ext_of(name) == Seq::<char>::empty(),
{
    assert(!has_dot(name));
}

proof fn lemma_ext_after_dot(name: Seq<char>, j: int)
    requires
        0 <= j < name.len(),
        name[j] == '.',
        forall|k: int| j < k < name.len() ==> name[k] != '.',
    ensures
        ext_of(name) == name.subrange(j + 1, name.len() as int),
    decreases name.len(),
{
    assert(has_dot(name));
    if j == name.len() - 1 {
        assert(name.last() == '.');
        assert(name.subrange(j + 1, name.len() as int) =~= Seq::<char>::empty());
    } else {
        assert(name.last() != '.');
        let d = name.drop_last();
        assert(d[j] == '.');
        lemma_ext_after_dot(d, j);
        assert(name.subrange(j + 1, name.len() as int) =~= d.subrange(j + 1, d.len() as int)
            + seq![name.last()]);
    }
}

/// The extension of `name`: what stands after the last `.`, or an empty
/// string when the name holds none.
pub fn extension_of(name: &str) -> (r: String)
    ensures
        r@ == ext_of(name@),
{
    let n: usize = name.unicode_len();
    let mut i: usize = n;
    while i > 0
        invariant
            i <= n,
            n == name@.len(),
            forall|k: int| i <= k < n ==> name@[k] != '.',
        decreases i,
    {
        if name.get_char(i - 1) == '.' {
            let ext = name.substring_char(i, n);
            proof {
                lemma_ext_after_dot(name@, i - 1);
            }
            return ext.to_owned();
        }
        i = i - 1;
    }
    proof {
        lemma_ext_no_dot(name@);
    }
    String::new()
}

/// Whether two string slices hold the same characters.
pub fn str_eq(a: &str, b: &str) -> (r: bool)
    ensures
        r == (a@ == b@),
{
    let sa: String = a.to_owned();
    let sb: String = b.to_owned();
    sa == sb
}

/// `dir` and `name` joined with a single `/`.
pub fn join_path(dir: &str, name: &str) -> (r: String)
    ensures
        r@ == dir@ + seq!['/'] + name@,
{
    let mut r = dir.to_owned();
    r.append("/");
    r.append(name);
    proof {
        reveal_strlit("/");
        assert(r@ =~= dir@ + seq!['/'] + name@);
    }
    r
}

/// Whether `s` is one of the strings of `pats`.
pub fn contains_str(pats: &Vec<String>, s: &str) -> (r: bool)
    ensures
        r == pats.deep_view().contains(s@),
{
    let mut i: usize = 0;
    while i < pats.len()
        invariant
            i <= pats.len(),
            forall|k: int| 0 <= k < i ==> pats.deep_view()[k] != s@,
        decreases pats.len() - i,
    {
        if str_eq(pats[i].as_str(), s) {
            assert(pats.deep_view()[i as int] == s@);
            return true;
        }
        i = i + 1;
    }
    assert(!pats.deep_view().contains(s@));
    false
}

} // verus!
