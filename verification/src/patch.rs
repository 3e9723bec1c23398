//! The patcher: splices categorized edits into file content.
//!
//! Anchors are processed in descending order of position, from rightmost to
//! leftmost, so that an edit never shifts the byte offsets a later-processed
//! (i.e. earlier-positioned) anchor was computed in. A rename anchor whose
//! head already ends with the configured suffix is skipped, which makes the
//! rename edit idempotent; otherwise at most one trailing legacy marker per
//! recognized string is stripped before the suffix is inserted. An argument
//! anchor inserts a single placeholder byte one position left of the anchor's
//! end, i.e. between the two bytes of an empty closure parameter list `||`.

use vstd::prelude::*;
use crate::category::Category;

verus! {

/// An actionable edit: the category and the (byte_start, byte_end) range it
/// acts on, offsets into the original file content.
pub type Anchor = Category<(usize, usize)>;

/// The placeholder parameter byte, `_`.
pub const PLACEHOLDER: u8 = 95;

/// Whether `s` ends with `suffix`.
pub open spec fn ends_with(s: Seq<u8>, suffix: Seq<u8>) -> bool {
    suffix.len() <= s.len() && s.skip(s.len() - suffix.len() as int) == suffix
}

/// The bytes of the legacy marker `Error`.
pub open spec fn error_marker() -> Seq<u8> {
    seq![69u8, 114u8, 114u8, 111u8, 114u8]
}

/// The bytes of the legacy marker `Context`.
pub open spec fn context_marker() -> Seq<u8> {
    seq![67u8, 111u8, 110u8, 116u8, 101u8, 120u8, 116u8]
}

/// Remove one trailing occurrence of `marker`, if present.
pub open spec fn strip_one(s: Seq<u8>, marker: Seq<u8>) -> Seq<u8> {
    if ends_with(s, marker) {
        s.take(s.len() - marker.len() as int)
    } else {
        s
    }
}

/// Remove the recognized legacy markers from the end of `s`, in priority
/// order: at most one `Error`, then at most one `Context`.
pub open spec fn strip_legacy(s: Seq<u8>) -> Seq<u8> {
    strip_one(strip_one(s, error_marker()), context_marker())
}

/// The content that splicing `anchors` (ordered ascending; processed from the
/// last, rightmost one down) into `c` produces. The cursor, initially all of
/// `c`, shrinks to the head left of each processed anchor; everything right
/// of the cut is emitted unchanged behind the inserted text.
pub open spec fn patched(c: Seq<u8>, anchors: Seq<Anchor>, suffix: Seq<u8>) -> Seq<u8>
    decreases anchors.len(),
{
    if anchors.len() == 0 {
        c
    } else {
        let rest = anchors.drop_last();
        match anchors.last() {
            Category::ContextSelectorRename((_s, e)) => {
                let head = c.take(e as int);
                let tail = c.skip(e as int);
                if ends_with(head, suffix) {
                    patched(c, rest, suffix)
                } else {
                    patched(strip_legacy(head), rest, suffix) + suffix + tail
                }
            },
            Category::WithContextArgument((_s, e)) => {
                let head = c.take(e as int - 1);
                let tail = c.skip(e as int - 1);
                patched(head, rest, suffix) + seq![PLACEHOLDER] + tail
            },
        }
    }
}

/// Whether every anchor's cut lands inside the cursor it is processed
/// against. The anchors are assumed non-overlapping by the producer; this
/// predicate is the precise condition under which the splice stays in
/// bounds (a stripped head can undercut even a non-overlapping neighbour).
pub open spec fn splice_valid(c: Seq<u8>, anchors: Seq<Anchor>, suffix: Seq<u8>) -> bool
    decreases anchors.len(),
{
    anchors.len() == 0 || {
        let rest = anchors.drop_last();
        match anchors.last() {
            Category::ContextSelectorRename((_s, e)) => {
                &&& e as int <= c.len()
                &&& if ends_with(c.take(e as int), suffix) {
                    splice_valid(c, rest, suffix)
                } else {
                    splice_valid(strip_legacy(c.take(e as int)), rest, suffix)
                }
            },
            Category::WithContextArgument((_s, e)) => {
                &&& 1 <= e as int
                &&& e as int <= c.len()
                &&& splice_valid(c.take(e as int - 1), rest, suffix)
            },
        }
    }
}

/// Copy of `v[a..b]`.
fn vec_subrange(v: &Vec<u8>, a: usize, b: usize) -> (out: Vec<u8>)
    requires
        a <= b,
        b <= v.len(),
    ensures
        out@ == v@.subrange(a as int, b as int),
{
    let mut out: Vec<u8> = Vec::new();
    proof {
        assert(out@ =~= v@.subrange(a as int, a as int));
    }
    let mut i: usize = a;
    while i < b
        invariant
            a <= i <= b,
            b <= v.len(),
            out@ == v@.subrange(a as int, i as int),
        decreases b - i,
    {
        out.push(v[i]);
        proof {
            assert(v@.subrange(a as int, i as int).push(v@[i as int]) =~= v@.subrange(
                a as int,
                i as int + 1,
            ));
        }
        i += 1;
    }
    out
}

/// Append `src[a..b]` to `dst`.
fn vec_extend_range(dst: &mut Vec<u8>, src: &Vec<u8>, a: usize, b: usize)
    requires
        a <= b,
        b <= src.len(),
    ensures
        final(dst)@ == old(dst)@ + src@.subrange(a as int, b as int),
{
    proof {
        assert(dst@ =~= dst@ + src@.subrange(a as int, a as int));
    }
    let mut i: usize = a;
    while i < b
        invariant
            a <= i <= b,
            b <= src.len(),
            dst@ == old(dst)@ + src@.subrange(a as int, i as int),
        decreases b - i,
    {
        dst.push(src[i]);
        proof {
            assert((old(dst)@ + src@.subrange(a as int, i as int)).push(src@[i as int]) =~= old(
                dst,
            )@ + src@.subrange(a as int, i as int + 1));
        }
        i += 1;
    }
}

/// Whether the first `e` bytes of `v` end with `marker`.
fn head_ends_with(v: &Vec<u8>, e: usize, marker: &Vec<u8>) -> (r: bool)
    requires
        e <= v.len(),
    ensures
        r == ends_with(v@.take(e as int), marker@),
{
    if marker.len() > e {
        return false;
    }
    let base: usize = e - marker.len();
    let mut i: usize = 0;
    while i < marker.len()
        invariant
            marker@.len() <= e <= v@.len(),
            base == e - marker@.len(),
            0 <= i <= marker@.len(),
            forall|j: int| 0 <= j < i ==> v@[base + j] == marker@[j],
        decreases marker@.len() - i,
    {
        if v[base + i] != marker[i] {
            proof {
                let s = v@.take(e as int);
                if ends_with(s, marker@) {
                    assert(s.skip(s.len() - marker@.len() as int)[i as int] == marker@[i as int]);
                    assert(s[base + i] == v@[base + i]);
                    assert(false);
                }
            }
            return false;
        }
        i += 1;
    }
    proof {
        let s = v@.take(e as int);
        assert(s.skip(s.len() - marker@.len() as int) =~= marker@);
    }
    true
}

/// The bytes of the legacy marker `Error` as a vector.
fn error_marker_vec() -> (v: Vec<u8>)
    ensures
        v@ == error_marker(),
{
    let mut v: Vec<u8> = Vec::new();
    v.push(69);
    v.push(114);
    v.push(114);
    v.push(111);
    v.push(114);
    proof {
        assert(v@ =~= error_marker());
    }
    v
}

/// The bytes of the legacy marker `Context` as a vector.
fn context_marker_vec() -> (v: Vec<u8>)
    ensures
        v@ == context_marker(),
{
    let mut v: Vec<u8> = Vec::new();
    v.push(67);
    v.push(111);
    v.push(110);
    v.push(116);
    v.push(101);
    v.push(120);
    v.push(116);
    proof {
        assert(v@ =~= context_marker());
    }
    v
}

/// Splice the first `n` anchors into the cursor `content[..m]`, processing
/// them from the `n`-th down. Every intermediate cursor is a prefix of the
/// original content, so it is represented by its length alone.
fn apply_edits_upto(content: &Vec<u8>, m: usize, anchors: &Vec<Anchor>, n: usize, suffix: &Vec<u8>) -> (out: Vec<u8>)
    requires
        m <= content.len(),
        n <= anchors.len(),
        splice_valid(content@.take(m as int), anchors@.take(n as int), suffix@),
    ensures
        out@ == patched(content@.take(m as int), anchors@.take(n as int), suffix@),
    decreases n,
{
    if n == 0 {
        return vec_subrange(content, 0, m);
    }
    let ghost cur = content@.take(m as int);
    let ghost ans = anchors@.take(n as int);
    proof {
        assert(ans.last() == anchors@[n - 1]);
        assert(ans.drop_last() =~= anchors@.take(n as int - 1));
    }
    let a = anchors[n - 1];
    match a {
        Category::ContextSelectorRename((_start, e)) => {
            proof {
                assert(cur.take(e as int) =~= content@.take(e as int));
            }
            if head_ends_with(content, e, suffix) {
                apply_edits_upto(content, m, anchors, n - 1, suffix)
            } else {
                let emk = error_marker_vec();
                let m1: usize;
                if head_ends_with(content, e, &emk) {
                    m1 = e - emk.len();
                    proof {
                        assert(content@.take(e as int).take(m1 as int) =~= content@.take(
                            m1 as int,
                        ));
                    }
                } else {
                    m1 = e;
                }
                proof {
                    assert(content@.take(m1 as int) == strip_one(
                        content@.take(e as int),
                        error_marker(),
                    ));
                }
                let cmk = context_marker_vec();
                let m2: usize;
                if head_ends_with(content, m1, &cmk) {
                    m2 = m1 - cmk.len();
                    proof {
                        assert(content@.take(m1 as int).take(m2 as int) =~= content@.take(
                            m2 as int,
                        ));
                    }
                } else {
                    m2 = m1;
                }
                proof {
                    assert(content@.take(m2 as int) == strip_legacy(content@.take(e as int)));
                }
                let mut out = apply_edits_upto(content, m2, anchors, n - 1, suffix);
                vec_extend_range(&mut out, suffix, 0, suffix.len());
                proof {
                    assert(suffix@.subrange(0, suffix@.len() as int) =~= suffix@);
                }
                vec_extend_range(&mut out, content, e, m);
                proof {
                    assert(content@.subrange(e as int, m as int) =~= cur.skip(e as int));
                }
                out
            }
        },
        Category::WithContextArgument((_start, e)) => {
            proof {
                assert(cur.take(e as int - 1) =~= content@.take(e as int - 1));
            }
            let mut out = apply_edits_upto(content, e - 1, anchors, n - 1, suffix);
            out.push(PLACEHOLDER);
            proof {
                assert(out@ =~= patched(content@.take(e as int - 1), ans.drop_last(), suffix@)
                    + seq![PLACEHOLDER]);
            }
            vec_extend_range(&mut out, content, e - 1, m);
            proof {
                assert(content@.subrange(e as int - 1, m as int) =~= cur.skip(e as int - 1));
            }
            out
        },
    }
}

/// Splice `anchors` into `content`, rightmost first, inserting `suffix` at
/// rename anchors and a placeholder byte at argument anchors. The result is
/// exactly `patched(content@, anchors@, suffix@)`.
pub fn apply_edits(content: &Vec<u8>, anchors: &Vec<Anchor>, suffix: &Vec<u8>) -> (out: Vec<u8>)
    requires
        splice_valid(content@, anchors@, suffix@),
    ensures
        out@ == patched(content@, anchors@, suffix@),
{
    proof {
        assert(content@.take(content@.len() as int) =~= content@);
        assert(anchors@.take(anchors@.len() as int) =~= anchors@);
    }
    apply_edits_upto(content, content.len(), anchors, anchors.len(), suffix)
}

/// Whether splicing the first `n` anchors into the cursor `content[..m]`
/// keeps every cut in bounds.
fn splice_valid_upto(content: &Vec<u8>, m: usize, anchors: &Vec<Anchor>, n: usize, suffix: &Vec<u8>) -> (r: bool)
    requires
        m <= content.len(),
        n <= anchors.len(),
    ensures
        r == splice_valid(content@.take(m as int), anchors@.take(n as int), suffix@),
    decreases n,
{
    if n == 0 {
        return true;
    }
    let ghost cur = content@.take(m as int);
    let ghost ans = anchors@.take(n as int);
    proof {
        assert(ans.last() == anchors@[n - 1]);
        assert(ans.drop_last() =~= anchors@.take(n as int - 1));
    }
    let a = anchors[n - 1];
    match a {
        Category::ContextSelectorRename((_start, e)) => {
            if e > m {
                return false;
            }
            proof {
                assert(cur.take(e as int) =~= content@.take(e as int));
            }
            if head_ends_with(content, e, suffix) {
                splice_valid_upto(content, m, anchors, n - 1, suffix)
            } else {
                let emk = error_marker_vec();
                let m1: usize;
                if head_ends_with(content, e, &emk) {
                    m1 = e - emk.len();
                    proof {
                        assert(content@.take(e as int).take(m1 as int) =~= content@.take(
                            m1 as int,
                        ));
                    }
                } else {
                    m1 = e;
                }
                proof {
                    assert(content@.take(m1 as int) == strip_one(
                        content@.take(e as int),
                        error_marker(),
                    ));
                }
                let cmk = context_marker_vec();
                let m2: usize;
                if head_ends_with(content, m1, &cmk) {
                    m2 = m1 - cmk.len();
                    proof {
                        assert(content@.take(m1 as int).take(m2 as int) =~= content@.take(
                            m2 as int,
                        ));
                    }
                } else {
                    m2 = m1;
                }
                proof {
                    assert(content@.take(m2 as int) == strip_legacy(content@.take(e as int)));
                }
                splice_valid_upto(content, m2, anchors, n - 1, suffix)
            }
        },
        Category::WithContextArgument((_start, e)) => {
            if e < 1 || e > m {
                return false;
            }
            proof {
                assert(cur.take(e as int - 1) =~= content@.take(e as int - 1));
            }
            splice_valid_upto(content, e - 1, anchors, n - 1, suffix)
        },
    }
}

/// Whether `apply_edits` may be called on these arguments: every cut the
/// splice will make lands inside the cursor it is made in.
pub fn check_splice_valid(content: &Vec<u8>, anchors: &Vec<Anchor>, suffix: &Vec<u8>) -> (r: bool)
    ensures
        r == splice_valid(content@, anchors@, suffix@),
{
    proof {
        assert(content@.take(content@.len() as int) =~= content@);
        assert(anchors@.take(anchors@.len() as int) =~= anchors@);
    }
    splice_valid_upto(content, content.len(), anchors, anchors.len(), suffix)
}


/// The end offset of an anchor's range.
pub open spec fn anchor_end(a: Anchor) -> int {
    a.spec_unify().1 as int
}

/// Law: the rename edit is idempotent. Splicing a rename anchor into content
/// whose head at that anchor already ends with the configured suffix gives
/// back the content byte for byte.
pub proof fn lemma_rename_idempotent(c: Seq<u8>, start: usize, end: usize, suffix: Seq<u8>)
    requires
        end as int <= c.len(),
        ends_with(c.take(end as int), suffix),
    ensures
        patched(c, seq![Category::ContextSelectorRename((start, end))], suffix) == c,
{
    let ans = seq![Category::<(usize, usize)>::ContextSelectorRename((start, end))];
    assert(ans.len() == 1);
    assert(ans.last() == Category::<(usize, usize)>::ContextSelectorRename((start, end)));
    assert(ans.drop_last() =~= Seq::<Anchor>::empty());
    assert(patched(c, ans.drop_last(), suffix) == c);
}

/// Law: after a rename anchor has been applied once, applying it again at the
/// adjusted end offset (where the inserted suffix now ends) changes nothing:
/// the first application leaves a head that ends with the suffix, so the
/// second is skipped.
pub proof fn lemma_rename_reapply(
    c: Seq<u8>,
    start: usize,
    end: usize,
    start2: usize,
    end2: usize,
    suffix: Seq<u8>,
)
    requires
        end as int <= c.len(),
        !ends_with(c.take(end as int), suffix),
        end2 as int == strip_legacy(c.take(end as int)).len() + suffix.len(),
    ensures
        ({
            let once = patched(c, seq![Category::ContextSelectorRename((start, end))], suffix);
            patched(once, seq![Category::ContextSelectorRename((start2, end2))], suffix) == once
        }),
{
    let a1 = seq![Category::<(usize, usize)>::ContextSelectorRename((start, end))];
    let a2 = seq![Category::<(usize, usize)>::ContextSelectorRename((start2, end2))];
    let h = strip_legacy(c.take(end as int));
    let t = c.skip(end as int);
    assert(a1.len() == 1 && a2.len() == 1);
    assert(a1.last() == Category::<(usize, usize)>::ContextSelectorRename((start, end)));
    assert(a2.last() == Category::<(usize, usize)>::ContextSelectorRename((start2, end2)));
    assert(a1.drop_last() =~= Seq::<Anchor>::empty());
    assert(a2.drop_last() =~= Seq::<Anchor>::empty());
    let once = patched(c, a1, suffix);
    assert(patched(h, a1.drop_last(), suffix) == h);
    assert(once == h + suffix + t);
    assert(once.take(end2 as int) =~= h + suffix);
    assert((h + suffix).skip((h + suffix).len() - suffix.len() as int) =~= suffix);
    assert(ends_with(once.take(end2 as int), suffix));
    assert(patched(once, a2.drop_last(), suffix) == once);
    assert(patched(once, a2, suffix) == once);
}

/// Whether an anchor's range is well formed: for an argument anchor the end
/// offset is at least one, so that the cut one byte left of it exists.
pub open spec fn anchor_wf(a: Anchor) -> bool {
    match a {
        Category::ContextSelectorRename(_) => true,
        Category::WithContextArgument((_s, e)) => 1 <= e as int,
    }
}

/// Law (exact splice, right of the edits): if every anchor cuts at or before
/// position `m`, every byte of the content from `m` on is carried into the
/// output unchanged, behind the splice of the first `m` bytes.
pub proof fn lemma_splice_local(c: Seq<u8>, anchors: Seq<Anchor>, suffix: Seq<u8>, m: int)
    requires
        0 <= m <= c.len(),
        forall|i: int| 0 <= i < anchors.len() ==> anchor_end(#[trigger] anchors[i]) <= m,
        forall|i: int| 0 <= i < anchors.len() ==> anchor_wf(#[trigger] anchors[i]),
    ensures
        patched(c, anchors, suffix) == patched(c.take(m), anchors, suffix) + c.skip(m),
    decreases anchors.len(),
{
    if anchors.len() == 0 {
        assert(c.take(m) + c.skip(m) =~= c);
    } else {
        let rest = anchors.drop_last();
        let a = anchors.last();
        assert(a == anchors[anchors.len() - 1]);
        assert(forall|i: int| 0 <= i < rest.len() ==> rest[i] == anchors[i]);
        match a {
            Category::ContextSelectorRename((_start, e)) => {
                assert(anchor_end(a) == e as int);
                assert(c.take(m).take(e as int) =~= c.take(e as int));
                if ends_with(c.take(e as int), suffix) {
                    lemma_splice_local(c, rest, suffix, m);
                } else {
                    let h = strip_legacy(c.take(e as int));
                    let p = patched(h, rest, suffix);
                    assert(patched(c, anchors, suffix) == p + suffix + c.skip(e as int));
                    assert(patched(c.take(m), anchors, suffix) == p + suffix + c.take(m).skip(
                        e as int,
                    ));
                    assert((p + suffix + c.take(m).skip(e as int)) + c.skip(m) =~= p + suffix
                        + c.skip(e as int));
                }
            },
            Category::WithContextArgument((_start, e)) => {
                assert(anchor_end(a) == e as int && anchor_wf(a));
                assert(c.take(m).take(e as int - 1) =~= c.take(e as int - 1));
                let p = patched(c.take(e as int - 1), rest, suffix);
                assert(patched(c, anchors, suffix) == p + seq![PLACEHOLDER] + c.skip(e as int - 1));
                assert(patched(c.take(m), anchors, suffix) == p + seq![PLACEHOLDER] + c.take(
                    m,
                ).skip(e as int - 1));
                assert((p + seq![PLACEHOLDER] + c.take(m).skip(e as int - 1)) + c.skip(m) =~= p
                    + seq![PLACEHOLDER] + c.skip(e as int - 1));
            },
        }
    }
}

/// The length of the cursor that remains after all anchors are spliced: the
/// first so many bytes of the content stand unchanged at the front of the
/// output (everything an edit touched lies at or beyond this position).
pub open spec fn splice_floor(c: Seq<u8>, anchors: Seq<Anchor>, suffix: Seq<u8>) -> int
    decreases anchors.len(),
{
    if anchors.len() == 0 {
        c.len() as int
    } else {
        let rest = anchors.drop_last();
        match anchors.last() {
            Category::ContextSelectorRename((_s, e)) => {
                if ends_with(c.take(e as int), suffix) {
                    splice_floor(c, rest, suffix)
                } else {
                    splice_floor(strip_legacy(c.take(e as int)), rest, suffix)
                }
            },
            Category::WithContextArgument((_s, e)) => splice_floor(
                c.take(e as int - 1),
                rest,
                suffix,
            ),
        }
    }
}

/// Law (exact splice, left of the edits): the output begins with the first
/// `splice_floor` bytes of the content, unchanged.
pub proof fn lemma_splice_prefix(c: Seq<u8>, anchors: Seq<Anchor>, suffix: Seq<u8>)
    requires
        splice_valid(c, anchors, suffix),
    ensures
        0 <= splice_floor(c, anchors, suffix) <= c.len(),
        splice_floor(c, anchors, suffix) <= patched(c, anchors, suffix).len(),
        patched(c, anchors, suffix).take(splice_floor(c, anchors, suffix)) == c.take(
            splice_floor(c, anchors, suffix),
        ),
    decreases anchors.len(),
{
    if anchors.len() == 0 {
        assert(patched(c, anchors, suffix).take(c.len() as int) =~= c.take(c.len() as int));
    } else {
        let rest = anchors.drop_last();
        let fl = splice_floor(c, anchors, suffix);
        match anchors.last() {
            Category::ContextSelectorRename((_start, e)) => {
                if ends_with(c.take(e as int), suffix) {
                    lemma_splice_prefix(c, rest, suffix);
                } else {
                    let h = strip_legacy(c.take(e as int));
                    lemma_splice_prefix(h, rest, suffix);
                    let p = patched(h, rest, suffix);
                    assert(h =~= c.take(h.len() as int));
                    assert(patched(c, anchors, suffix) == p + suffix + c.skip(e as int));
                    assert((p + suffix + c.skip(e as int)).take(fl) =~= p.take(fl));
                    assert(h.take(fl) =~= c.take(fl));
                }
            },
            Category::WithContextArgument((_start, e)) => {
                let h = c.take(e as int - 1);
                lemma_splice_prefix(h, rest, suffix);
                let p = patched(h, rest, suffix);
                assert(patched(c, anchors, suffix) == p + seq![PLACEHOLDER] + c.skip(e as int - 1));
                assert((p + seq![PLACEHOLDER] + c.skip(e as int - 1)).take(fl) =~= p.take(fl));
                assert(h.take(fl) =~= c.take(fl));
            },
        }
    }
}

/// The position of the leftmost byte that processing anchor `a` against
/// content `c` can touch or cut away: the stripped head length for a rename
/// (the whole content if the rename is skipped), the cut before the closing
/// pipe for an argument anchor.
pub open spec fn cut_after(c: Seq<u8>, a: Anchor, suffix: Seq<u8>) -> int {
    match a {
        Category::ContextSelectorRename((_s, e)) => {
            if ends_with(c.take(e as int), suffix) {
                c.len() as int
            } else {
                strip_legacy(c.take(e as int)).len() as int
            }
        },
        Category::WithContextArgument((_s, e)) => e as int - 1,
    }
}

/// Law (reverse-order correctness): for two anchors where `a` ends at or
/// before everything `b`'s edit touches, splicing both in one pass (rightmost
/// first) equals splicing `b` alone and then `a` alone, with both ranges
/// still expressed in the original content's offsets: applying `b` does not
/// shift the coordinate space `a` was computed in.
pub proof fn lemma_reverse_order(c: Seq<u8>, a: Anchor, b: Anchor, suffix: Seq<u8>)
    requires
        splice_valid(c, seq![a, b], suffix),
        anchor_end(a) <= cut_after(c, b, suffix),
    ensures
        patched(c, seq![a, b], suffix) == patched(
            patched(c, seq![b], suffix),
            seq![a],
            suffix,
        ),
{
    let ab = seq![a, b];
    let sb = seq![b];
    let sa = seq![a];
    assert(ab.len() == 2 && sb.len() == 1 && sa.len() == 1);
    assert(ab[0] == a && ab[1] == b && sb[0] == b && sa[0] == a);
    assert(ab.last() == b && sb.last() == b && sa.last() == a);
    assert(ab.drop_last() =~= sa);
    assert(sb.drop_last() =~= Seq::<Anchor>::empty());
    assert(sa.drop_last() =~= Seq::<Anchor>::empty());
    assert(splice_valid(c, ab, suffix));
    let once = patched(c, sb, suffix);
    match b {
        Category::ContextSelectorRename((_sb2, eb)) => {
            assert(eb as int <= c.len());
            if ends_with(c.take(eb as int), suffix) {
                assert(patched(c, sb.drop_last(), suffix) == c);
                assert(once == c);
                assert(patched(c, ab, suffix) == patched(c, sa, suffix));
            } else {
                let h = strip_legacy(c.take(eb as int));
                let t = c.skip(eb as int);
                assert(patched(h, sb.drop_last(), suffix) == h);
                assert(once == h + suffix + t);
                assert(h =~= c.take(h.len() as int));
                assert(h + suffix + t =~= h + (suffix + t));
                assert(splice_valid(h, sa, suffix));
                lemma_anchor_wf_from_valid(h, a, suffix);
                lemma_reverse_order_inner(c, a, h, suffix, suffix + t);
                let p = patched(h, sa, suffix);
                assert(patched(c, ab, suffix) == p + suffix + t);
                assert(patched(once, sa, suffix) == p + (suffix + t));
                assert(p + suffix + t =~= p + (suffix + t));
            }
        },
        Category::WithContextArgument((_sb2, eb)) => {
            let h = c.take(eb as int - 1);
            let t = c.skip(eb as int - 1);
            assert(patched(h, sb.drop_last(), suffix) == h);
            assert(once == h + seq![PLACEHOLDER] + t);
            assert(h =~= c.take(h.len() as int));
            assert(h + seq![PLACEHOLDER] + t =~= h + (seq![PLACEHOLDER] + t));
            assert(splice_valid(h, sa, suffix));
            lemma_anchor_wf_from_valid(h, a, suffix);
            lemma_reverse_order_inner(c, a, h, suffix, seq![PLACEHOLDER] + t);
            let p = patched(h, sa, suffix);
            assert(patched(c, ab, suffix) == p + seq![PLACEHOLDER] + t);
            assert(patched(once, sa, suffix) == p + (seq![PLACEHOLDER] + t));
            assert(p + seq![PLACEHOLDER] + t =~= p + (seq![PLACEHOLDER] + t));
        },
    }
}

/// Helper: a single anchor that is valid against some cursor is well formed.
proof fn lemma_anchor_wf_from_valid(cur: Seq<u8>, a: Anchor, suffix: Seq<u8>)
    requires
        splice_valid(cur, seq![a], suffix),
    ensures
        anchor_wf(a),
        anchor_end(a) <= cur.len(),
{
    let sa = seq![a];
    assert(sa.len() == 1 && sa.last() == a);
    match a {
        Category::ContextSelectorRename((_s, e)) => {
            assert(e as int <= cur.len());
        },
        Category::WithContextArgument((_s, e)) => {
            assert(1 <= e as int && e as int <= cur.len());
        },
    }
}

/// Helper: splicing a single anchor `a` that ends within the prefix `h` of
/// `c` treats `h + rest` as `h` spliced, with `rest` carried unchanged.
proof fn lemma_reverse_order_inner(
    c: Seq<u8>,
    a: Anchor,
    h: Seq<u8>,
    suffix: Seq<u8>,
    rest: Seq<u8>,
)
    requires
        h == c.take(h.len() as int),
        h.len() <= c.len(),
        anchor_end(a) <= h.len(),
        anchor_wf(a),
    ensures
        patched(h + rest, seq![a], suffix) == patched(h, seq![a], suffix) + rest,
{
    let sa = seq![a];
    let once = h + rest;
    assert(sa.len() == 1 && sa[0] == a && sa.last() == a);
    assert(sa.drop_last() =~= Seq::<Anchor>::empty());
    assert(patched(once, sa.drop_last(), suffix) == once);
    assert(patched(h, sa.drop_last(), suffix) == h);
    match a {
        Category::ContextSelectorRename((_sa2, ea)) => {
            assert(anchor_end(a) == ea as int);
            assert(once.take(ea as int) =~= h.take(ea as int));
            if ends_with(h.take(ea as int), suffix) {
                assert(patched(once, sa, suffix) == once);
                assert(patched(h, sa, suffix) == h);
            } else {
                let g = strip_legacy(h.take(ea as int));
                let p = patched(g, Seq::<Anchor>::empty(), suffix);
                assert(patched(once, sa, suffix) == p + suffix + once.skip(ea as int));
                assert(patched(h, sa, suffix) == p + suffix + h.skip(ea as int));
                assert((p + suffix + h.skip(ea as int)) + rest =~= p + suffix + once.skip(
                    ea as int,
                ));
            }
        },
        Category::WithContextArgument((_sa2, ea)) => {
            assert(anchor_end(a) == ea as int && anchor_wf(a));
            assert(once.take(ea as int - 1) =~= h.take(ea as int - 1));
            let g = h.take(ea as int - 1);
            let p = patched(g, Seq::<Anchor>::empty(), suffix);
            assert(patched(once, sa, suffix) == p + seq![PLACEHOLDER] + once.skip(ea as int - 1));
            assert(patched(h, sa, suffix) == p + seq![PLACEHOLDER] + h.skip(ea as int - 1));
            assert((p + seq![PLACEHOLDER] + h.skip(ea as int - 1)) + rest =~= p + seq![PLACEHOLDER]
                + once.skip(ea as int - 1));
        },
    }
}

/// One file's planned rewrite: the new content, and whether it is to be
/// written to disk.
pub struct FilePatch {
    pub new_content: Vec<u8>,
    pub write: bool,
}

/// Compute a file's new content from its anchors. In dry-run mode the
/// content is still computed and returned, but marked not to be written.
/// Returns nothing exactly when the anchors do not splice within bounds,
/// which the producer's non-overlapping anchors stay clear of.
pub fn patch_file(
    content: &Vec<u8>,
    anchors: &Vec<Anchor>,
    suffix: &Vec<u8>,
    dry_run: bool,
) -> (r: Option<FilePatch>)
    ensures
        (r is Some) == splice_valid(content@, anchors@, suffix@),
        r matches Some(fp) ==> fp.new_content@ == patched(content@, anchors@, suffix@)
            && fp.write == !dry_run,
{
    if check_splice_valid(content, anchors, suffix) {
        let out = apply_edits(content, anchors, suffix);
        Some(FilePatch { new_content: out, write: !dry_run })
    } else {
        None
    }
}

/// The cursor that remains when all anchors have been spliced: the leftmost
/// part of the content, after every cut and strip.
pub open spec fn splice_cursor(c: Seq<u8>, anchors: Seq<Anchor>, suffix: Seq<u8>) -> Seq<u8>
    decreases anchors.len(),
{
    if anchors.len() == 0 {
        c
    } else {
        let rest = anchors.drop_last();
        match anchors.last() {
            Category::ContextSelectorRename((_s, e)) => {
                if ends_with(c.take(e as int), suffix) {
                    splice_cursor(c, rest, suffix)
                } else {
                    splice_cursor(strip_legacy(c.take(e as int)), rest, suffix)
                }
            },
            Category::WithContextArgument((_s, e)) => splice_cursor(
                c.take(e as int - 1),
                rest,
                suffix,
            ),
        }
    }
}

/// The final cursor is the content's prefix of length `splice_floor`.
pub proof fn lemma_cursor_is_prefix(c: Seq<u8>, anchors: Seq<Anchor>, suffix: Seq<u8>)
    requires
        splice_valid(c, anchors, suffix),
    ensures
        0 <= splice_floor(c, anchors, suffix) <= c.len(),
        splice_cursor(c, anchors, suffix) == c.take(splice_floor(c, anchors, suffix)),
    decreases anchors.len(),
{
    if anchors.len() == 0 {
        assert(c.take(c.len() as int) =~= c);
    } else {
        let rest = anchors.drop_last();
        match anchors.last() {
            Category::ContextSelectorRename((_start, e)) => {
                if ends_with(c.take(e as int), suffix) {
                    lemma_cursor_is_prefix(c, rest, suffix);
                } else {
                    let h = strip_legacy(c.take(e as int));
                    lemma_cursor_is_prefix(h, rest, suffix);
                    assert(h =~= c.take(h.len() as int));
                    assert(h.take(splice_floor(h, rest, suffix)) =~= c.take(
                        splice_floor(h, rest, suffix),
                    ));
                }
            },
            Category::WithContextArgument((_start, e)) => {
                let h = c.take(e as int - 1);
                lemma_cursor_is_prefix(h, rest, suffix);
                assert(h.take(splice_floor(h, rest, suffix)) =~= c.take(
                    splice_floor(h, rest, suffix),
                ));
            },
        }
    }
}

/// Splicing a concatenation of anchor groups decomposes: the rightmost group
/// `hi` acts on the content, the rest acts on the cursor `hi` leaves.
proof fn lemma_splice_concat(c: Seq<u8>, lo: Seq<Anchor>, hi: Seq<Anchor>, suffix: Seq<u8>)
    requires
        splice_valid(c, hi, suffix),
    ensures
        patched(c, lo + hi, suffix) == patched(splice_cursor(c, hi, suffix), lo, suffix) + patched(
            c,
            hi,
            suffix,
        ).skip(splice_floor(c, hi, suffix)),
    decreases hi.len(),
{
    if hi.len() == 0 {
        assert(lo + hi =~= lo);
        assert(patched(c, hi, suffix) == c);
        assert(c.skip(c.len() as int) =~= Seq::<u8>::empty());
        assert(patched(c, lo, suffix) + Seq::<u8>::empty() =~= patched(c, lo, suffix));
    } else {
        let b = hi.last();
        let hrest = hi.drop_last();
        assert((lo + hi).len() > 0);
        assert((lo + hi).last() == b);
        assert((lo + hi).drop_last() =~= lo + hrest);
        match b {
            Category::ContextSelectorRename((_start, e)) => {
                if ends_with(c.take(e as int), suffix) {
                    lemma_splice_concat(c, lo, hrest, suffix);
                    assert(patched(c, lo + hi, suffix) == patched(c, lo + hrest, suffix));
                } else {
                    let h = strip_legacy(c.take(e as int));
                    let t = c.skip(e as int);
                    lemma_splice_concat(h, lo, hrest, suffix);
                    lemma_splice_prefix(h, hrest, suffix);
                    let fl = splice_floor(h, hrest, suffix);
                    let ph = patched(h, hrest, suffix);
                    let cur = splice_cursor(h, hrest, suffix);
                    assert(patched(c, lo + hi, suffix) == patched(h, lo + hrest, suffix) + suffix
                        + t);
                    assert(patched(c, hi, suffix) == ph + suffix + t);
                    assert(splice_floor(c, hi, suffix) == fl);
                    assert(splice_cursor(c, hi, suffix) == cur);
                    assert((ph + suffix + t).skip(fl) =~= ph.skip(fl) + suffix + t);
                    assert((patched(cur, lo, suffix) + ph.skip(fl)) + suffix + t =~= patched(
                        cur,
                        lo,
                        suffix,
                    ) + (ph.skip(fl) + suffix + t));
                }
            },
            Category::WithContextArgument((_start, e)) => {
                let h = c.take(e as int - 1);
                let t = c.skip(e as int - 1);
                lemma_splice_concat(h, lo, hrest, suffix);
                lemma_splice_prefix(h, hrest, suffix);
                let fl = splice_floor(h, hrest, suffix);
                let ph = patched(h, hrest, suffix);
                let cur = splice_cursor(h, hrest, suffix);
                assert(patched(c, lo + hi, suffix) == patched(h, lo + hrest, suffix)
                    + seq![PLACEHOLDER] + t);
                assert(patched(c, hi, suffix) == ph + seq![PLACEHOLDER] + t);
                assert(splice_floor(c, hi, suffix) == fl);
                assert(splice_cursor(c, hi, suffix) == cur);
                assert((ph + seq![PLACEHOLDER] + t).skip(fl) =~= ph.skip(fl) + seq![PLACEHOLDER]
                    + t);
                assert((patched(cur, lo, suffix) + ph.skip(fl)) + seq![PLACEHOLDER] + t =~= patched(
                    cur,
                    lo,
                    suffix,
                ) + (ph.skip(fl) + seq![PLACEHOLDER] + t));
            },
        }
    }
}

/// Law (exact splice, in full): pick any split point `m` at or beyond every
/// anchor of the left group `lo` and at or before everything the right group
/// `hi` touches. The splice then acts independently on the two sides: the
/// output is the splice of the first `m` bytes under `lo` alone, followed by
/// what the splice under `hi` alone made of the bytes from `m` on. In
/// particular every byte the two groups' edits leave alone is carried over
/// unchanged.
pub proof fn lemma_splice_split(
    c: Seq<u8>,
    lo: Seq<Anchor>,
    hi: Seq<Anchor>,
    suffix: Seq<u8>,
    m: int,
)
    requires
        splice_valid(c, hi, suffix),
        0 <= m <= splice_floor(c, hi, suffix),
        forall|i: int| 0 <= i < lo.len() ==> anchor_end(#[trigger] lo[i]) <= m,
        forall|i: int| 0 <= i < lo.len() ==> anchor_wf(#[trigger] lo[i]),
    ensures
        patched(c, lo + hi, suffix) == patched(c.take(m), lo, suffix) + patched(
            c,
            hi,
            suffix,
        ).skip(m),
{
    lemma_splice_concat(c, lo, hi, suffix);
    lemma_cursor_is_prefix(c, hi, suffix);
    lemma_splice_prefix(c, hi, suffix);
    let fl = splice_floor(c, hi, suffix);
    let p = patched(c, hi, suffix);
    lemma_splice_local(c.take(fl), lo, suffix, m);
    assert(c.take(fl).take(m) =~= c.take(m));
    assert(p.skip(m) =~= c.take(fl).skip(m) + p.skip(fl)) by {
        assert(forall|i: int| 0 <= i < fl ==> p[i] == p.take(fl)[i] && c.take(fl)[i] == c[i]);
        assert(p.take(fl) == c.take(fl));
        assert(forall|i: int| 0 <= i < fl ==> p[i] == c[i]);
    }
    assert(patched(c, lo + hi, suffix) == patched(c.take(fl), lo, suffix) + p.skip(fl));
    assert((patched(c.take(m), lo, suffix) + c.take(fl).skip(m)) + p.skip(fl) =~= patched(
        c.take(m),
        lo,
        suffix,
    ) + (c.take(fl).skip(m) + p.skip(fl)));
}

} // verus!
