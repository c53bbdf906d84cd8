//! Finding a byte in a sequence of bytes.
use vstd::prelude::*;

verus! {

pub const CR: u8 = 13;

pub const LF: u8 = 10;

pub const SP: u8 = 32;

pub const HT: u8 = 9;

/// The position of the first `b` in `s`, or the length of `s` if it holds none.
pub open spec fn index_of(s: Seq<u8>, b: u8) -> nat
    decreases s.len(),
{
    if s.len() == 0 || s[0] == b {
        0
    } else {
        1 + index_of(s.drop_first(), b)
    }
}

/// `s` holds no byte `b`.
pub open spec fn lacks(s: Seq<u8>, b: u8) -> bool {
    forall|i: int| 0 <= i < s.len() ==> s[i] != b
}

/// `index_of` lies within the sequence, nothing before it is `b`, and where it
/// is a position of the sequence, that position holds `b`.
pub proof fn lemma_index_of(s: Seq<u8>, b: u8)
    ensures
        index_of(s, b) <= s.len(),
        forall|j: int| 0 <= j < index_of(s, b) ==> s[j] != b,
        index_of(s, b) < s.len() ==> s[index_of(s, b) as int] == b,
    decreases s.len(),
{
    if s.len() == 0 || s[0] == b {
    } else {
        let t = s.drop_first();
        lemma_index_of(t, b);
        assert forall|j: int| 0 <= j < index_of(s, b) implies s[j] != b by {
            if j > 0 {
                assert(t[j - 1] == s[j]);
            }
        }
    }
}

/// A position with no `b` before it, which holds `b` or is the end, is `index_of`.
pub proof fn lemma_index_of_is(s: Seq<u8>, b: u8, i: int)
    requires
        0 <= i <= s.len(),
        forall|j: int| 0 <= j < i ==> s[j] != b,
        i < s.len() ==> s[i] == b,
    ensures
        index_of(s, b) == i,
{
    lemma_index_of(s, b);
}

/// Bytes appended behind the first `b` do not move it.
pub proof fn lemma_index_of_append(s: Seq<u8>, t: Seq<u8>, b: u8)
    ensures
        index_of(s, b) < s.len() ==> index_of(s + t, b) == index_of(s, b),
        index_of(s, b) == s.len() ==> index_of(s + t, b) == s.len() + index_of(t, b),
{
    lemma_index_of(s, b);
    lemma_index_of(t, b);
    let i = index_of(s, b) as int;
    if i < s.len() {
        lemma_index_of_is(s + t, b, i);
    } else {
        let k = (s.len() + index_of(t, b)) as int;
        assert forall|j: int| 0 <= j < k implies (s + t)[j] != b by {
            if j >= s.len() {
                assert((s + t)[j] == t[j - s.len()]);
            }
        }
        if index_of(t, b) < t.len() {
            assert((s + t)[k] == t[index_of(t, b) as int]);
        }
        lemma_index_of_is(s + t, b, k);
    }
}

/// Finds the first `b` in `s`.
pub fn find(s: &[u8], b: u8) -> (i: usize)
    ensures
        i == index_of(s@, b),
        i <= s@.len(),
{
    let mut i: usize = 0;
    while i < s.len() && s[i] != b
        invariant
            i <= s@.len(),
            forall|j: int| 0 <= j < i ==> s@[j] != b,
        decreases s@.len() - i,
    {
        i += 1;
    }
    proof {
        lemma_index_of_is(s@, b, i as int);
    }
    i
}

/// Whether two slices hold the same bytes.
pub fn same_bytes(a: &[u8], b: &[u8]) -> (r: bool)
    ensures
        r == (a@ == b@),
{
    if a.len() != b.len() {
        return false;
    }
    let mut i: usize = 0;
    while i < a.len()
        invariant
            a@.len() == b@.len(),
            i <= a@.len(),
            forall|j: int| 0 <= j < i ==> a@[j] == b@[j],
        decreases a@.len() - i,
    {
        if a[i] != b[i] {
            return false;
        }
        i += 1;
    }
    assert(a@ =~= b@);
    true
}

} // verus!
