//! Small verified operations on duplicate-free lists of peers.

use vstd::prelude::*;
use crate::types::PeerId;

verus! {

/// Position of `p` in `v`, if it is there.
pub fn position_of(v: &Vec<PeerId>, p: &PeerId) -> (r: Option<usize>)
    ensures
        match r {
            Some(i) => i < v@.len() && v@[i as int] == *p,
            None => !v@.contains(*p),
        },
{
    let mut i: usize = 0;
    while i < v.len()
        invariant
            0 <= i <= v@.len(),
            forall|k: int| 0 <= k < i ==> v@[k] != *p,
        decreases v@.len() - i,
    {
        if v[i] == *p {
            return Some(i);
        }
        i = i + 1;
    }
    None
}

/// Whether `v` holds `p`.
pub fn holds(v: &Vec<PeerId>, p: &PeerId) -> (r: bool)
    ensures
        r == v@.contains(*p),
{
    match position_of(v, p) {
        Some(_) => true,
        None => false,
    }
}

/// Removing the element at `i` from a duplicate-free sequence removes exactly that peer.
pub proof fn lemma_remove_index(s: Seq<PeerId>, i: int)
    requires
        s.no_duplicates(),
        0 <= i < s.len(),
    ensures
        s.remove(i).no_duplicates(),
        s.remove(i).len() == s.len() - 1,
        forall|q: PeerId| #[trigger] s.remove(i).contains(q) == (s.contains(q) && q != s[i]),
{
    let t = s.remove(i);
    assert forall|a: int, b: int| 0 <= a < b < t.len() implies t[a] != t[b] by {
        let a2 = if a < i { a } else { a + 1 };
        let b2 = if b < i { b } else { b + 1 };
        assert(t[a] == s[a2]);
        assert(t[b] == s[b2]);
    }
    assert forall|q: PeerId| #[trigger] t.contains(q) == (s.contains(q) && q != s[i]) by {
        if t.contains(q) {
            let k = choose|k: int| 0 <= k < t.len() && t[k] == q;
            let k2 = if k < i { k } else { k + 1 };
            assert(s[k2] == q);
            assert(k2 != i);
        }
        if s.contains(q) && q != s[i] {
            let k = choose|k: int| 0 <= k < s.len() && s[k] == q;
            if k < i {
                assert(t[k] == q);
            } else {
                assert(t[k - 1] == q);
            }
        }
    }
}

/// Pushing a peer that is not there keeps a sequence duplicate-free.
pub proof fn lemma_push_new(s: Seq<PeerId>, p: PeerId)
    requires
        s.no_duplicates(),
        !s.contains(p),
    ensures
        s.push(p).no_duplicates(),
        forall|q: PeerId| #[trigger] s.push(p).contains(q) == (s.contains(q) || q == p),
{
    let t = s.push(p);
    assert forall|a: int, b: int| 0 <= a < b < t.len() implies t[a] != t[b] by {
        if b == s.len() {
            assert(t[a] == s[a]);
        }
    }
    assert forall|q: PeerId| #[trigger] t.contains(q) == (s.contains(q) || q == p) by {
        if t.contains(q) {
            let k = choose|k: int| 0 <= k < t.len() && t[k] == q;
            if k < s.len() {
                assert(s[k] == q);
            }
        }
        if s.contains(q) {
            let k = choose|k: int| 0 <= k < s.len() && s[k] == q;
            assert(t[k] == q);
        }
        if q == p {
            assert(t[s.len() as int] == q);
        }
    }
}

/// Removes `p` from the duplicate-free `v`; returns whether it was there.
pub fn remove_peer(v: &mut Vec<PeerId>, p: &PeerId) -> (r: bool)
    requires
        old(v)@.no_duplicates(),
    ensures
        r == old(v)@.contains(*p),
        !r ==> final(v)@ == old(v)@,
        final(v)@.no_duplicates(),
        final(v)@.len() == if r { old(v)@.len() - 1 } else { old(v)@.len() as int },
        forall|q: PeerId| #[trigger] final(v)@.contains(q) == (old(v)@.contains(q) && q != *p),
{
    match position_of(v, p) {
        Some(i) => {
            proof {
                lemma_remove_index(v@, i as int);
            }
            v.remove(i);
            true
        },
        None => false,
    }
}

/// Adds `p` to the duplicate-free `v` unless it is there; returns whether it was added.
pub fn insert_peer(v: &mut Vec<PeerId>, p: PeerId) -> (r: bool)
    requires
        old(v)@.no_duplicates(),
    ensures
        r == !old(v)@.contains(p),
        !r ==> final(v)@ == old(v)@,
        r ==> final(v)@ == old(v)@.push(p),
        final(v)@.no_duplicates(),
        final(v)@.len() == if r { old(v)@.len() + 1 } else { old(v)@.len() + 0 },
        forall|q: PeerId| #[trigger] final(v)@.contains(q) == (old(v)@.contains(q) || q == p),
{
    if holds(v, &p) {
        false
    } else {
        proof {
            lemma_push_new(v@, p);
        }
        v.push(p);
        true
    }
}

} // verus!
