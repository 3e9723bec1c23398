//! The safe-directory boundary check.
//!
//! Before a file is touched, its resolved absolute path must lie within the
//! configured boundary directory; otherwise the whole run fails with no
//! write to that file. Paths arrive here already resolved against the
//! project root, as separator-delimited byte strings.

use vstd::prelude::*;

verus! {

/// The path separator byte, `/`.
pub const SEPARATOR: u8 = 47;

/// The boundary with every trailing separator removed.
pub open spec fn trimmed(boundary: Seq<u8>) -> Seq<u8>
    decreases boundary.len(),
{
    if boundary.len() > 0 && boundary.last() == SEPARATOR {
        trimmed(boundary.drop_last())
    } else {
        boundary
    }
}

/// Whether `path` lies within the directory `boundary`: the boundary, with
/// its trailing separators removed, is the whole path, or a prefix of it
/// that ends at a component boundary. A boundary of nothing but separators
/// (or nothing at all) trims to empty and admits every path that starts at
/// the root, as the root directory contains every absolute path.
pub open spec fn spec_within_boundary(path: Seq<u8>, boundary: Seq<u8>) -> bool {
    let b = trimmed(boundary);
    &&& b.len() <= path.len()
    &&& path.take(b.len() as int) == b
    &&& (path.len() == b.len() || path[b.len() as int] == SEPARATOR)
}

/// Whether `path` lies within the directory `boundary`.
pub fn within_boundary(path: &Vec<u8>, boundary: &Vec<u8>) -> (r: bool)
    ensures
        r == spec_within_boundary(path@, boundary@),
{
    let mut blen: usize = boundary.len();
    proof {
        assert(boundary@.take(boundary@.len() as int) =~= boundary@);
    }
    while blen > 0 && boundary[blen - 1] == SEPARATOR
        invariant
            0 <= blen <= boundary@.len(),
            trimmed(boundary@) == trimmed(boundary@.take(blen as int)),
        decreases blen,
    {
        proof {
            assert(boundary@.take(blen as int).drop_last() =~= boundary@.take(blen as int - 1));
            assert(boundary@.take(blen as int).last() == boundary@[blen as int - 1]);
        }
        blen = blen - 1;
    }
    proof {
        assert(trimmed(boundary@.take(blen as int)) == boundary@.take(blen as int));
        assert(trimmed(boundary@) == boundary@.take(blen as int));
    }
    if blen > path.len() {
        return false;
    }
    let mut i: usize = 0;
    while i < blen
        invariant
            0 <= i <= blen <= boundary@.len(),
            blen <= path@.len(),
            trimmed(boundary@) == boundary@.take(blen as int),
            forall|j: int| 0 <= j < i ==> path@[j] == boundary@[j],
        decreases blen - i,
    {
        if path[i] != boundary[i] {
            proof {
                if path@.take(blen as int) == boundary@.take(blen as int) {
                    assert(path@.take(blen as int)[i as int] == boundary@.take(
                        blen as int,
                    )[i as int]);
                    assert(false);
                }
                assert(!spec_within_boundary(path@, boundary@));
            }
            return false;
        }
        i += 1;
    }
    proof {
        assert(path@.take(blen as int) =~= boundary@.take(blen as int));
    }
    path.len() == blen || path[blen] == SEPARATOR
}

} // verus!
