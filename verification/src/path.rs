//! Relative paths as byte strings, split into components.
//!
//! A path is a sequence of bytes; `/` separates components, repeated
//! separators are ignored. Resolution is capability-oriented, so parsing
//! rejects outright anything that could name something outside the start
//! directory's subtree: an empty path, an absolute path (leading separator),
//! and any parent-directory (`..`) component. The current-directory
//! component (`.`) is kept and resolved like any other name.

use vstd::prelude::*;
use crate::types::{Error, EACCES, ENOENT};

verus! {

/// The path separator byte, `/`.
pub const SEP: u8 = 47;

/// The `.` component.
pub open spec fn dot() -> Seq<u8> {
    seq![46u8]
}

/// The `..` component.
pub open spec fn dotdot() -> Seq<u8> {
    seq![46u8, 46u8]
}

/// No separator occurs in `s`.
pub open spec fn sep_free(s: Seq<u8>) -> bool {
    forall|i: int| 0 <= i < s.len() ==> s[i] != SEP
}

/// A component the resolver will accept: non-empty, separator-free, and not
/// a parent-directory marker.
pub open spec fn valid_comp(c: Seq<u8>) -> bool {
    c.len() > 0 && sep_free(c) && c != dotdot()
}

/// The components of `s`, accumulating the current partial component in
/// `cur`: separators end a component, empty pieces are dropped.
pub open spec fn split_from(s: Seq<u8>, cur: Seq<u8>) -> Seq<Seq<u8>>
    decreases s.len(),
{
    if s.len() == 0 {
        if cur.len() == 0 {
            Seq::empty()
        } else {
            seq![cur]
        }
    } else if s[0] == SEP {
        if cur.len() == 0 {
            split_from(s.drop_first(), Seq::empty())
        } else {
            seq![cur] + split_from(s.drop_first(), Seq::empty())
        }
    } else {
        split_from(s.drop_first(), cur.push(s[0]))
    }
}

/// The components of the byte path `s`.
pub open spec fn split_comps(s: Seq<u8>) -> Seq<Seq<u8>> {
    split_from(s, Seq::empty())
}

/// The views of a vector of components.
pub open spec fn comps_view(v: Seq<Vec<u8>>) -> Seq<Seq<u8>> {
    v.map_values(|c: Vec<u8>| c@)
}

/// What parsing a path returns: the component sequence, or the exact error.
/// An empty path does not name anything; an absolute path or a
/// parent-directory component could escape the subtree.
pub open spec fn parse_result(s: Seq<u8>) -> Result<Seq<Seq<u8>>, Error> {
    if s.len() == 0 {
        Err(Error::Os(ENOENT))
    } else if s[0] == SEP {
        Err(Error::Os(EACCES))
    } else if exists|i: int| 0 <= i < split_comps(s).len() && split_comps(s)[i] == dotdot() {
        Err(Error::Os(EACCES))
    } else {
        Ok(split_comps(s))
    }
}

/// Every component produced by `split_from` is non-empty and separator-free,
/// provided the partial component accumulated so far is.
pub proof fn lemma_split_from_pieces(s: Seq<u8>, cur: Seq<u8>)
    requires
        sep_free(cur),
    ensures
        forall|i: int| 0 <= i < split_from(s, cur).len()
            ==> (#[trigger] split_from(s, cur)[i]).len() > 0 && sep_free(split_from(s, cur)[i]),
    decreases s.len(),
{
    let r = split_from(s, cur);
    if s.len() == 0 {
        if cur.len() > 0 {
            assert(r == seq![cur]);
            assert(r[0] == cur);
        }
    } else if s[0] == SEP {
        lemma_split_from_pieces(s.drop_first(), Seq::empty());
        let tail = split_from(s.drop_first(), Seq::empty());
        if cur.len() > 0 {
            assert(r == seq![cur] + tail);
            assert forall|i: int| 0 <= i < r.len()
                implies (#[trigger] r[i]).len() > 0 && sep_free(r[i]) by {
                if i == 0 {
                    assert(r[0] == cur);
                } else {
                    assert(r[i] == tail[i - 1]);
                }
            }
        } else {
            assert(r == tail);
            assert forall|i: int| 0 <= i < r.len()
                implies (#[trigger] r[i]).len() > 0 && sep_free(r[i]) by {
                assert(r[i] == tail[i]);
            }
        }
    } else {
        let cur2 = cur.push(s[0]);
        assert(sep_free(cur2));
        lemma_split_from_pieces(s.drop_first(), cur2);
        let tail = split_from(s.drop_first(), cur2);
        assert(r == tail);
        assert forall|i: int| 0 <= i < r.len()
            implies (#[trigger] r[i]).len() > 0 && sep_free(r[i]) by {
            assert(r[i] == tail[i]);
        }
    }
}

/// A path that does not start with a separator has at least one component.
pub proof fn lemma_split_from_nonempty(s: Seq<u8>, cur: Seq<u8>)
    requires
        cur.len() > 0 || (s.len() > 0 && s[0] != SEP),
    ensures
        split_from(s, cur).len() >= 1,
    decreases s.len(),
{
    if s.len() == 0 {
    } else if s[0] == SEP {
        if cur.len() == 0 {
        } else {
        }
    } else {
        lemma_split_from_nonempty(s.drop_first(), cur.push(s[0]));
    }
}

/// Compare two byte strings.
pub fn bytes_eq(a: &[u8], b: &[u8]) -> (r: bool)
    ensures
        r == (a@ == b@),
{
    if a.len() != b.len() {
        assert(a@ != b@);
        return false;
    }
    let mut i: usize = 0;
    while i < a.len()
        invariant
            i <= a.len(),
            a@.len() == b@.len(),
            forall|j: int| 0 <= j < i ==> a@[j] == b@[j],
        decreases a.len() - i,
    {
        if a[i] != b[i] {
            assert(a@ != b@);
            return false;
        }
        i += 1;
    }
    assert(a@ =~= b@);
    true
}

/// Whether `c` is the parent-directory component `..`.
pub fn is_dotdot(c: &[u8]) -> (r: bool)
    ensures
        r == (c@ == dotdot()),
{
    let r = c.len() == 2 && c[0] == 46 && c[1] == 46;
    proof {
        if r {
            assert(c@ =~= dotdot());
        } else {
            assert(c@ != dotdot()) by {
                if c@ == dotdot() {
                    assert(c@.len() == 2 && c@[0] == 46 && c@[1] == 46);
                }
            }
        }
    }
    r
}

/// Whether `c` is the current-directory component `.`.
pub fn is_dot(c: &[u8]) -> (r: bool)
    ensures
        r == (c@ == dot()),
{
    let r = c.len() == 1 && c[0] == 46;
    proof {
        if r {
            assert(c@ =~= dot());
        } else {
            assert(c@ != dot()) by {
                if c@ == dot() {
                    assert(c@.len() == 1 && c@[0] == 46);
                }
            }
        }
    }
    r
}

/// Split a relative byte path into its components, rejecting an empty path,
/// an absolute path, and any `..` component.
pub fn parse_path(s: &[u8]) -> (r: Result<Vec<Vec<u8>>, Error>)
    ensures
        match r {
            Ok(v) => parse_result(s@) == Ok::<Seq<Seq<u8>>, Error>(comps_view(v@))
                && forall|i: int| 0 <= i < v@.len() ==> valid_comp(#[trigger] v@[i]@),
            Err(e) => parse_result(s@) == Err::<Seq<Seq<u8>>, Error>(e),
        },
{
    if s.len() == 0 {
        return Err(Error::Os(ENOENT));
    }
    if s[0] == SEP {
        return Err(Error::Os(EACCES));
    }
    let mut out: Vec<Vec<u8>> = Vec::new();
    let mut cur: Vec<u8> = Vec::new();
    let mut i: usize = 0;
    proof {
        assert(s@.skip(0) =~= s@);
        assert(cur@ =~= Seq::<u8>::empty());
        assert(comps_view(out@) + split_from(s@, cur@) =~= split_from(s@, Seq::empty()));
    }
    while i < s.len()
        invariant
            i <= s.len(),
            sep_free(cur@),
            comps_view(out@) + split_from(s@.skip(i as int), cur@) == split_comps(s@),
            forall|j: int| 0 <= j < out@.len() ==> valid_comp(#[trigger] out@[j]@),
        decreases s.len() - i,
    {
        let ghost pre = s@.skip(i as int);
        assert(pre.len() > 0 && pre[0] == s@[i as int]);
        assert(pre.drop_first() =~= s@.skip(i as int + 1));
        if s[i] == SEP {
            if cur.len() > 0 {
                if is_dotdot(cur.as_slice()) {
                    proof {
                        assert(split_from(pre, cur@) == seq![cur@] + split_from(pre.drop_first(), Seq::empty()));
                        assert(split_comps(s@)[out@.len() as int] == cur@);
                    }
                    return Err(Error::Os(EACCES));
                }
                let done = cur;
                cur = Vec::new();
                proof {
                    assert(split_from(pre, done@)
                        == seq![done@] + split_from(s@.skip(i as int + 1), Seq::empty()));
                    assert(cur@ =~= Seq::<u8>::empty());
                    assert(comps_view(out@.push(done)) =~= comps_view(out@).push(done@));
                    assert(comps_view(out@.push(done)) + split_from(s@.skip(i as int + 1), cur@)
                        =~= comps_view(out@) + split_from(pre, done@));
                }
                out.push(done);
            } else {
                proof {
                    assert(cur@.len() == 0);
                    assert(split_from(pre, cur@) == split_from(s@.skip(i as int + 1), Seq::empty()));
                    assert(cur@ =~= Seq::<u8>::empty());
                }
            }
        } else {
            let b = s[i];
            proof {
                assert(split_from(pre, cur@) == split_from(pre.drop_first(), cur@.push(b)));
            }
            cur.push(b);
        }
        i += 1;
    }
    proof {
        assert(s@.skip(i as int) =~= Seq::<u8>::empty());
    }
    if cur.len() > 0 {
        if is_dotdot(cur.as_slice()) {
            proof {
                assert(split_from(s@.skip(i as int), cur@) == seq![cur@]);
                assert(split_comps(s@)[out@.len() as int] == cur@);
            }
            return Err(Error::Os(EACCES));
        }
        let done = cur;
        proof {
            assert(comps_view(out@.push(done)) =~= comps_view(out@).push(done@));
            assert(comps_view(out@.push(done)) =~= comps_view(out@) + split_from(s@.skip(i as int), done@));
        }
        out.push(done);
    } else {
        proof {
            assert(comps_view(out@) =~= comps_view(out@) + split_from(s@.skip(i as int), cur@));
        }
    }
    proof {
        assert(comps_view(out@) == split_comps(s@));
        assert(forall|j: int| 0 <= j < split_comps(s@).len()
            ==> #[trigger] split_comps(s@)[j] != dotdot());
    }
    Ok(out)
}

} // verus!
