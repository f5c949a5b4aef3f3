//! Hierarchical signal identity: an ordered, non-empty sequence of path
//! components, with decomposition and dotted-string conversions.

use vstd::prelude::*;

verus! {

use vstd::string::StrSliceExecFns;
use vstd::string::StringExecFns;
use crate::strutil::{dec_digits, dec_string};

/// Spec: index of the first '.' in `s`, or `s.len()` if there is none.
pub open spec fn find_dot(s: Seq<char>) -> int
    decreases s.len(),
{
    if s.len() == 0 {
        0
    } else if s[0] == '.' {
        0
    } else {
        1 + find_dot(s.skip(1))
    }
}

pub proof fn lemma_find_dot(s: Seq<char>)
    ensures
        0 <= find_dot(s) <= s.len(),
        forall|j: int| 0 <= j < find_dot(s) ==> s[j] != '.',
        find_dot(s) < s.len() ==> s[find_dot(s)] == '.',
    decreases s.len(),
{
    if s.len() > 0 && s[0] != '.' {
        lemma_find_dot(s.skip(1));
        assert forall|j: int| 0 <= j < find_dot(s) implies s[j] != '.' by {
            if j > 0 {
                assert(s.skip(1)[j - 1] == s[j]);
            }
        }
        if find_dot(s) < s.len() {
            assert(s.skip(1)[find_dot(s) - 1] == s[find_dot(s)]);
        }
    }
}

/// Spec: components of `s` split at '.' characters.  Always non-empty;
/// components themselves may be empty.
pub open spec fn split_dots(s: Seq<char>) -> Seq<Seq<char>>
    decreases s.len(),
    via split_dots_dec
{
    if find_dot(s) >= s.len() {
        seq![s]
    } else {
        seq![s.take(find_dot(s))] + split_dots(s.skip(find_dot(s) + 1))
    }
}

#[via_fn]
proof fn split_dots_dec(s: Seq<char>) {
    lemma_find_dot(s);
}

pub proof fn lemma_split_dots_len(s: Seq<char>)
    ensures
        split_dots(s).len() >= 1,
    decreases s.len(),
{
    lemma_find_dot(s);
    if find_dot(s) < s.len() {
        lemma_split_dots_len(s.skip(find_dot(s) + 1));
    }
}

/// Spec: components joined by '.'.
pub open spec fn join_dotted(p: Seq<Seq<char>>) -> Seq<char>
    decreases p.len(),
{
    if p.len() == 0 {
        Seq::empty()
    } else if p.len() == 1 {
        p[0]
    } else {
        p[0] + seq!['.'] + join_dotted(p.skip(1))
    }
}

/// Appending one component to a joined path appends a '.' and the component.
pub proof fn lemma_join_snoc(p: Seq<Seq<char>>)
    requires
        p.len() >= 2,
    ensures
        join_dotted(p) =~= join_dotted(p.drop_last()) + seq!['.'] + p.last(),
    decreases p.len(),
{
    assert(join_dotted(p) == p[0] + seq!['.'] + join_dotted(p.skip(1)));
    if p.len() == 2 {
        assert(p.skip(1).len() == 1);
        assert(p.skip(1)[0] == p[1]);
        assert(join_dotted(p.skip(1)) == p[1]);
        assert(p.drop_last().len() == 1);
        assert(p.drop_last()[0] == p[0]);
        assert(join_dotted(p.drop_last()) == p[0]);
        assert(p.last() == p[1]);
        assert(join_dotted(p) =~= join_dotted(p.drop_last()) + seq!['.'] + p.last());
    } else {
        lemma_join_snoc(p.skip(1));
        assert(p.skip(1).drop_last() =~= p.drop_last().skip(1));
        assert(p.skip(1).last() == p.last());
        assert(p.drop_last().len() >= 2);
        assert(p.drop_last()[0] == p[0]);
        assert(join_dotted(p.drop_last()) == p[0] + seq!['.'] + join_dotted(p.drop_last().skip(1)));
        assert(join_dotted(p) =~= join_dotted(p.drop_last()) + seq!['.'] + p.last());
    }
}

/// Spec: a path component free of separator characters.
pub open spec fn component_wf(c: Seq<char>) -> bool {
    forall|i: int| 0 <= i < c.len() ==> c[i] != '.'
}

/// Spec: a non-empty path whose components are separator-free.
pub open spec fn path_wf(p: Seq<Seq<char>>) -> bool {
    p.len() > 0 && forall|i: int| 0 <= i < p.len() ==> component_wf(#[trigger] p[i])
}

proof fn lemma_find_dot_none(c: Seq<char>)
    requires
        component_wf(c),
    ensures
        find_dot(c) == c.len(),
    decreases c.len(),
{
    if c.len() > 0 {
        assert(c[0] != '.');
        assert(component_wf(c.skip(1))) by {
            assert forall|i: int| 0 <= i < c.skip(1).len() implies c.skip(1)[i] != '.' by {
                assert(c.skip(1)[i] == c[i + 1]);
            }
        }
        lemma_find_dot_none(c.skip(1));
    }
}

proof fn lemma_find_dot_concat(a: Seq<char>, rest: Seq<char>)
    requires
        component_wf(a),
    ensures
        find_dot(a + seq!['.'] + rest) == a.len(),
    decreases a.len(),
{
    let s = a + seq!['.'] + rest;
    if a.len() == 0 {
        assert(s[0] == '.');
    } else {
        assert(s[0] == a[0]);
        assert(s[0] != '.');
        assert(component_wf(a.skip(1))) by {
            assert forall|i: int| 0 <= i < a.skip(1).len() implies a.skip(1)[i] != '.' by {
                assert(a.skip(1)[i] == a[i + 1]);
            }
        }
        lemma_find_dot_concat(a.skip(1), rest);
        assert(s.skip(1) =~= a.skip(1) + seq!['.'] + rest);
    }
}

/// Law: splitting a dot-joined separator-free path recovers its components.
pub proof fn lemma_split_join_roundtrip(p: Seq<Seq<char>>)
    requires
        path_wf(p),
    ensures
        split_dots(join_dotted(p)) == p,
    decreases p.len(),
{
    let s = join_dotted(p);
    if p.len() == 1 {
        assert(s == p[0]);
        lemma_find_dot_none(s);
        assert(split_dots(s) =~= p);
    } else {
        assert(s == p[0] + seq!['.'] + join_dotted(p.skip(1)));
        lemma_find_dot_concat(p[0], join_dotted(p.skip(1)));
        assert(find_dot(s) == p[0].len());
        assert(s.take(p[0].len() as int) =~= p[0]);
        assert(s.skip(p[0].len() as int + 1) =~= join_dotted(p.skip(1)));
        assert(path_wf(p.skip(1))) by {
            assert forall|i: int| 0 <= i < p.skip(1).len() implies component_wf(
                #[trigger] p.skip(1)[i],
            ) by {
                assert(p.skip(1)[i] == p[i + 1]);
            }
        }
        lemma_split_join_roundtrip(p.skip(1));
        assert(split_dots(s) =~= seq![p[0]] + p.skip(1));
        assert(seq![p[0]] + p.skip(1) =~= p);
    }
}

/// Spec: the path with the bit index `i` appended to its last component as a
/// bracketed suffix.
pub open spec fn indexed_path(p: Seq<Seq<char>>, i: int) -> Seq<Seq<char>> {
    p.update(p.len() - 1, p.last() + seq!['['] + dec_digits(i) + seq![']'])
}

/// Hierarchical identity of a signal within the design under test.
#[derive(Debug)]
pub struct WaveformSignal {
    path: Vec<String>,
}

impl View for WaveformSignal {
    type V = Seq<Seq<char>>;

    closed spec fn view(&self) -> Seq<Seq<char>> {
        self.path.deep_view()
    }
}

impl Clone for WaveformSignal {
    fn clone(&self) -> (r: Self)
        ensures
            r@ == self@,
    {
        let mut p: Vec<String> = Vec::new();
        let mut i: usize = 0;
        while i < self.path.len()
            invariant
                i <= self.path@.len(),
                p@.len() == i,
                forall|k: int| 0 <= k < i ==> p@[k]@ == self.path@[k]@,
            decreases self.path@.len() - i,
        {
            p.push(self.path[i].clone());
            i = i + 1;
        }
        proof {
            assert forall|k: int| 0 <= k < p@.len() implies p.deep_view()[k] == self@[k] by {
                assert(p.deep_view()[k] == p@[k]@);
                assert(self@[k] == self.path@[k]@);
            }
            assert(p.deep_view() =~= self@);
        }
        WaveformSignal { path: p }
    }
}

impl PartialEq for WaveformSignal {
    fn eq(&self, other: &Self) -> (r: bool) {
        if self.path.len() != other.path.len() {
            proof {
                assert(self@.len() == self.path@.len());
                assert(other@.len() == other.path@.len());
                assert(self@ != other@);
            }
            return false;
        }
        let n = self.path.len();
        let mut i: usize = 0;
        while i < n
            invariant
                n == self.path@.len(),
                n == other.path@.len(),
                i <= n,
                forall|j: int| 0 <= j < i ==> self@[j] == other@[j],
            decreases n - i,
        {
            if !(self.path[i] == other.path[i]) {
                proof {
                    assert(self@[i as int] == self.path@[i as int]@);
                    assert(other@[i as int] == other.path@[i as int]@);
                    assert(self@ != other@);
                }
                return false;
            }
            i = i + 1;
        }
        proof {
            assert(self@ =~= other@);
        }
        true
    }
}

impl vstd::std_specs::cmp::PartialEqSpecImpl for WaveformSignal {
    open spec fn obeys_eq_spec() -> bool {
        true
    }

    open spec fn eq_spec(&self, other: &Self) -> bool {
        self@ == other@
    }
}

impl WaveformSignal {
    pub fn new(path_: Vec<String>) -> (r: Self)
        ensures
            r@ == path_.deep_view(),
    {
        WaveformSignal { path: path_ }
    }

    /// Number of path components.
    pub fn depth(&self) -> (n: usize)
        ensures
            n == self@.len(),
    {
        self.path.len()
    }

    /// The component at position `i`.
    pub fn component(&self, i: usize) -> (r: &String)
        requires
            i < self@.len(),
        ensures
            r@ == self@[i as int],
    {
        &self.path[i]
    }

    /// All components but the last.
    pub fn hier(&self) -> (r: Vec<String>)
        requires
            self@.len() > 0,
        ensures
            r.deep_view() == self@.take(self@.len() - 1),
    {
        let end = self.path.len() - 1;
        let mut r: Vec<String> = Vec::new();
        let mut i: usize = 0;
        while i < end
            invariant
                end == self.path@.len() - 1,
                i <= end,
                r@.len() == i,
                forall|k: int| 0 <= k < i ==> r@[k]@ == self.path@[k]@,
            decreases end - i,
        {
            r.push(self.path[i].clone());
            i = i + 1;
        }
        proof {
            assert forall|k: int| 0 <= k < r@.len() implies r.deep_view()[k] == self@.take(
                self@.len() - 1,
            )[k] by {
                assert(r.deep_view()[k] == r@[k]@);
                assert(self@[k] == self.path@[k]@);
            }
            assert(r.deep_view() =~= self@.take(self@.len() - 1));
        }
        r
    }

    /// The last component.  The path of an identity is never empty; asking
    /// for the name of an empty path is a programming error, excluded here.
    pub fn name(&self) -> (r: String)
        requires
            self@.len() > 0,
        ensures
            r@ == self@.last(),
    {
        self.path[self.path.len() - 1].clone()
    }

    /// Extends the path by one component.
    pub fn append(&mut self, sig: String)
        ensures
            final(self)@ == old(self)@.push(sig@),
    {
        let ghost old_view = self@;
        self.path.push(sig);
        proof {
            assert(self@ =~= old_view.push(sig@));
        }
    }

    /// Dot-joined rendering of the identity.
    pub fn to_string(&self) -> (r: String)
        ensures
            r@ == join_dotted(self@),
    {
        let n = self.path.len();
        let mut out = String::new();
        if n == 0 {
            proof {
                assert(out@ =~= join_dotted(self@));
            }
            return out;
        }
        out.append(self.path[0].as_str());
        proof {
            assert(self@.take(1)[0] == self@[0]);
            assert(out@ =~= join_dotted(self@.take(1)));
        }
        let mut i: usize = 1;
        while i < n
            invariant
                n == self.path@.len(),
                1 <= i <= n,
                out@ == join_dotted(self@.take(i as int)),
            decreases n - i,
        {
            out.append(".");
            out.append(self.path[i].as_str());
            proof {
                reveal_strlit(".");
                let pre = self@.take(i as int + 1);
                lemma_join_snoc(pre);
                assert(pre.drop_last() =~= self@.take(i as int));
                assert(pre.last() == self@[i as int]);
                assert(out@ =~= join_dotted(pre));
            }
            i = i + 1;
        }
        proof {
            assert(self@.take(n as int) =~= self@);
        }
        out
    }

    /// Builds an identity from a dot-joined name.
    pub fn from_dotted(s: &str) -> (r: Self)
        ensures
            r@ == split_dots(s@),
    {
        let n = s.unicode_len();
        let mut path: Vec<String> = Vec::new();
        let mut start: usize = 0;
        proof {
            assert(s@.skip(0) =~= s@);
            assert(path.deep_view() + split_dots(s@) =~= split_dots(s@));
        }
        // Each iteration consumes one component and its trailing separator.
        let mut fin = false;
        while !fin
            invariant
                n == s@.len(),
                start <= n,
                !fin ==> path.deep_view() + split_dots(s@.skip(start as int)) == split_dots(s@),
                fin ==> path.deep_view() == split_dots(s@),
            decreases n - start + (if fin {
                0int
            } else {
                1int
            }),
        {
            let mut j = start;
            while j < n && s.get_char(j) != '.'
                invariant
                    n == s@.len(),
                    start <= j <= n,
                    forall|k: int| start <= k < j ==> s@[k] != '.',
                decreases n - j,
            {
                j = j + 1;
            }
            let comp = s.substring_char(start, j);
            let ghost old_path = path.deep_view();
            let ghost old_vec = path@;
            path.push(comp.to_owned());
            proof {
                assert forall|k: int| 0 <= k < path@.len() implies path.deep_view()[k]
                    == old_path.push(comp@)[k] by {
                    assert(path.deep_view()[k] == path@[k]@);
                    if k < old_vec.len() {
                        assert(path@[k] == old_vec[k]);
                        assert(old_path[k] == old_vec[k]@);
                    }
                }
                assert(path.deep_view() =~= old_path.push(comp@));
                let rest = s@.skip(start as int);
                lemma_find_dot(rest);
                assert forall|k: int| 0 <= k < j - start implies rest[k] != '.' by {
                    assert(rest[k] == s@[start + k]);
                }
                if (j as int) < n as int {
                    assert(rest[j - start] == s@[j as int]);
                    assert(find_dot(rest) == j - start);
                    assert(rest.take(j - start) =~= s@.subrange(start as int, j as int));
                    assert(rest.skip(j - start + 1) =~= s@.skip(j as int + 1));
                    assert(split_dots(rest) == seq![comp@] + split_dots(s@.skip(j as int + 1)));
                    assert(path.deep_view() + split_dots(s@.skip(j as int + 1)) =~= split_dots(s@));
                } else {
                    assert(find_dot(rest) == rest.len());
                    assert(rest =~= s@.subrange(start as int, j as int));
                    assert(split_dots(rest) == seq![comp@]);
                    assert(path.deep_view() =~= split_dots(s@));
                }
            }
            if j == n {
                fin = true;
            } else {
                start = j + 1;
            }
        }
        WaveformSignal { path }
    }

    /// The identity of bit `i` of this signal: the last component gains a
    /// bracketed index suffix.
    pub fn indexed(&self, i: usize) -> (r: Self)
        requires
            self@.len() > 0,
        ensures
            r@ == indexed_path(self@, i as int),
    {
        let mut p = self.hier();
        let mut last = self.name();
        last.append("[");
        let idx = dec_string(i);
        last.append(idx.as_str());
        last.append("]");
        proof {
            reveal_strlit("[");
            reveal_strlit("]");
            assert(last@ =~= self@.last() + seq!['['] + dec_digits(i as int) + seq![']']);
        }
        let ghost old_deep = p.deep_view();
        let ghost old_vec = p@;
        let ghost newlast = last@;
        p.push(last);
        proof {
            let target = indexed_path(self@, i as int);
            assert(old_deep.len() == old_vec.len());
            assert(old_deep.len() == self@.len() - 1);
            assert(p@.len() == old_vec.len() + 1);
            assert(target.len() == self@.len());
            assert forall|k: int| 0 <= k < p@.len() implies p.deep_view()[k] == target[k] by {
                assert(p.deep_view()[k] == p@[k]@);
                if k < old_vec.len() {
                    assert(p@[k] == old_vec[k]);
                    assert(old_deep[k] == old_vec[k]@);
                    assert(self@.take(self@.len() - 1)[k] == self@[k]);
                    assert(old_deep == self@.take(self@.len() - 1));
                    assert(old_deep.len() == self@.len() - 1);
                    assert(old_deep[k] == self@[k]);
                    assert(target[k] == self@[k]);
                } else {
                    assert(p@[k]@ == newlast);
                    assert(target[k] == newlast);
                }
            }
            assert(p.deep_view() =~= target);
        }
        WaveformSignal { path: p }
    }
}

/// Law: the hierarchy of an identity followed by its name is the identity's
/// own component sequence.
pub proof fn lemma_hier_name_roundtrip(p: Seq<Seq<char>>)
    requires
        p.len() > 0,
    ensures
        p.take(p.len() - 1).push(p.last()) == p,
{
    assert(p.take(p.len() - 1).push(p.last()) =~= p);
}

} // verus!
