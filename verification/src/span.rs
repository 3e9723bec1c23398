//! Spans reported by the build tool, and byte-string ordering.
//!
//! A span names a byte range in a file and whether it is the diagnostic's
//! primary location. File names compare lexicographically by byte; that
//! order keeps the edit plan's files sorted and unique.

use vstd::prelude::*;

verus! {

/// A source location within one file, in byte offsets.
#[derive(Debug)]
pub struct Span {
    pub byte_start: usize,
    pub byte_end: usize,
    pub file_name: Vec<u8>,
    pub is_primary: bool,
}

/// Strict lexicographic order on byte strings: a proper prefix precedes its
/// extensions, otherwise the first differing byte decides.
pub open spec fn spec_bytes_lt(a: Seq<u8>, b: Seq<u8>) -> bool
    decreases a.len(),
{
    if b.len() == 0 {
        false
    } else if a.len() == 0 {
        true
    } else if a[0] < b[0] {
        true
    } else if a[0] > b[0] {
        false
    } else {
        spec_bytes_lt(a.drop_first(), b.drop_first())
    }
}

/// The lexicographic order is irreflexive and connex.
pub proof fn lemma_bytes_lt_order(a: Seq<u8>, b: Seq<u8>)
    ensures
        a == b ==> !spec_bytes_lt(a, b),
        !spec_bytes_lt(a, b) && !spec_bytes_lt(b, a) ==> a == b,
        spec_bytes_lt(a, b) ==> !spec_bytes_lt(b, a),
    decreases a.len(),
{
    if a.len() == 0 && b.len() == 0 {
        assert(a =~= b);
    } else if a.len() > 0 && b.len() > 0 {
        if a[0] == b[0] {
            lemma_bytes_lt_order(a.drop_first(), b.drop_first());
            if a == b {
                assert(a.drop_first() =~= b.drop_first());
            }
            if a.drop_first() == b.drop_first() {
                assert(forall|i: int| 1 <= i < a.len() ==> a[i] == a.drop_first()[i - 1]);
                assert(forall|i: int| 1 <= i < b.len() ==> b[i] == b.drop_first()[i - 1]);
                assert(a =~= b);
            }
        }
    }
}

/// The lexicographic order is transitive.
pub proof fn lemma_bytes_lt_trans(a: Seq<u8>, b: Seq<u8>, c: Seq<u8>)
    requires
        spec_bytes_lt(a, b),
        spec_bytes_lt(b, c),
    ensures
        spec_bytes_lt(a, c),
    decreases a.len(),
{
    if a.len() > 0 && b.len() > 0 && c.len() > 0 {
        if a[0] == b[0] && b[0] == c[0] {
            lemma_bytes_lt_trans(a.drop_first(), b.drop_first(), c.drop_first());
        }
    }
}

/// Whether the byte strings `a[i..]` and `b[i..]` are lexicographically
/// ordered.
fn bytes_lt_from(a: &Vec<u8>, b: &Vec<u8>, i: usize) -> (r: bool)
    requires
        i <= a.len(),
        i <= b.len(),
    ensures
        r == spec_bytes_lt(a@.skip(i as int), b@.skip(i as int)),
    decreases a.len() - i,
{
    if i == b.len() {
        return false;
    }
    if i == a.len() {
        return true;
    }
    if a[i] < b[i] {
        true
    } else if a[i] > b[i] {
        false
    } else {
        proof {
            assert(a@.skip(i as int).drop_first() =~= a@.skip(i as int + 1));
            assert(b@.skip(i as int).drop_first() =~= b@.skip(i as int + 1));
            assert(a@.skip(i as int)[0] == a@[i as int]);
            assert(b@.skip(i as int)[0] == b@[i as int]);
        }
        bytes_lt_from(a, b, i + 1)
    }
}

/// Whether `a` lexicographically precedes `b`.
pub fn bytes_lt(a: &Vec<u8>, b: &Vec<u8>) -> (r: bool)
    ensures
        r == spec_bytes_lt(a@, b@),
{
    proof {
        assert(a@.skip(0) =~= a@);
        assert(b@.skip(0) =~= b@);
    }
    bytes_lt_from(a, b, 0)
}

/// Whether two byte strings hold the same bytes.
pub fn bytes_eq(a: &Vec<u8>, b: &Vec<u8>) -> (r: bool)
    ensures
        r == (a@ == b@),
{
    if a.len() != b.len() {
        return false;
    }
    let mut i: usize = 0;
    while i < a.len()
        invariant
            a@.len() == b@.len(),
            0 <= i <= a@.len(),
            forall|j: int| 0 <= j < i ==> a@[j] == b@[j],
        decreases a@.len() - i,
    {
        if a[i] != b[i] {
            return false;
        }
        i += 1;
    }
    proof {
        assert(a@ =~= b@);
    }
    true
}

impl Span {
    /// The ordering key: (byte_start, byte_end, file_name, is_primary).
    pub open spec fn key(self) -> (int, int, Seq<u8>, bool) {
        (self.byte_start as int, self.byte_end as int, self.file_name@, self.is_primary)
    }

    /// A copy of this span.
    pub fn duplicate(&self) -> (r: Span)
        ensures
            r.key() == self.key(),
    {
        let mut name: Vec<u8> = Vec::new();
        let mut i: usize = 0;
        while i < self.file_name.len()
            invariant
                0 <= i <= self.file_name@.len(),
                name@ == self.file_name@.take(i as int),
            decreases self.file_name@.len() - i,
        {
            name.push(self.file_name[i]);
            proof {
                assert(self.file_name@.take(i as int).push(self.file_name@[i as int])
                    =~= self.file_name@.take(i as int + 1));
            }
            i += 1;
        }
        proof {
            assert(self.file_name@.take(self.file_name@.len() as int) =~= self.file_name@);
        }
        Span {
            byte_start: self.byte_start,
            byte_end: self.byte_end,
            file_name: name,
            is_primary: self.is_primary,
        }
    }
}

} // verus!
