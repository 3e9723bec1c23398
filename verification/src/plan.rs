//! Decoded build-tool records, and the edit plan collected from them.
//!
//! The collector turns one cycle's records into an `EditPlan`: for every
//! actionable message it takes the spans the category selects (primary for a
//! rename, secondary for a placeholder argument), deduplicates byte-identical
//! locations, groups them by file, and orders each file's anchors ascending
//! by range start. The plan is the single source of truth for what a cycle
//! will change.

use vstd::prelude::*;
use crate::category::{Category, Code, spec_is_context_selector_rename, spec_is_with_context_argument};
use crate::span::{Span, spec_bytes_lt, bytes_lt, bytes_eq, lemma_bytes_lt_order, lemma_bytes_lt_trans};
use crate::patch::Anchor;

verus! {

/// One decoded record of the build tool's output: a compiler message, or
/// anything else (discarded).
#[derive(Debug)]
pub enum DiagnosticRecord {
    CompilerMessage(Message),
    Other,
}

/// A compiler message: an optional diagnostic code and its spans. A message
/// without a code can never be actionable.
#[derive(Debug)]
pub struct Message {
    pub code: Option<Code>,
    pub spans: Vec<Span>,
}

/// The anchors of one file, ordered ascending by range.
#[derive(Debug)]
pub struct FileEdits {
    pub file_name: Vec<u8>,
    pub anchors: Vec<Anchor>,
}

/// A cycle's edit plan: for each affected file, its ordered anchors. Files
/// are ordered by name; rebuilt from scratch every cycle.
#[derive(Debug)]
pub struct EditPlan {
    pub files: Vec<FileEdits>,
}

/// The candidates a span list contributes under the given category: the
/// primary spans of a rename message, the secondary spans of an argument
/// message, each carrying its span.
pub open spec fn span_candidates(is_rename: bool, spans: Seq<Span>) -> Seq<Category<Span>>
    decreases spans.len(),
{
    if spans.len() == 0 {
        Seq::empty()
    } else {
        let rest = span_candidates(is_rename, spans.drop_last());
        let s = spans.last();
        if is_rename && s.is_primary {
            rest.push(Category::ContextSelectorRename(s))
        } else if !is_rename && !s.is_primary {
            rest.push(Category::WithContextArgument(s))
        } else {
            rest
        }
    }
}

/// The candidates one message contributes.
pub open spec fn message_candidates(m: Message) -> Seq<Category<Span>> {
    match m.code {
        Option::Some(c) => {
            if spec_is_context_selector_rename(c.code@) {
                span_candidates(true, m.spans@)
            } else if spec_is_with_context_argument(c.code@) {
                span_candidates(false, m.spans@)
            } else {
                Seq::empty()
            }
        },
        Option::None => Seq::empty(),
    }
}

/// All candidates of a cycle's records, in record order.
pub open spec fn records_candidates(rs: Seq<DiagnosticRecord>) -> Seq<Category<Span>>
    decreases rs.len(),
{
    if rs.len() == 0 {
        Seq::empty()
    } else {
        records_candidates(rs.drop_last()) + (match rs.last() {
            DiagnosticRecord::CompilerMessage(m) => message_candidates(m),
            DiagnosticRecord::Other => Seq::empty(),
        })
    }
}

/// The file a candidate points into.
pub open spec fn cand_file(c: Category<Span>) -> Seq<u8> {
    c.spec_unify().file_name@
}

/// The anchor a candidate produces: its category over its byte range.
pub open spec fn anchor_of(c: Category<Span>) -> Anchor {
    if c.spec_is_rename() {
        Category::ContextSelectorRename(
            (c.spec_unify().byte_start, c.spec_unify().byte_end),
        )
    } else {
        Category::WithContextArgument((c.spec_unify().byte_start, c.spec_unify().byte_end))
    }
}

/// Order of anchors within one file: ascending by range start, then range
/// end; at an identical range the argument anchor (whose selecting span is
/// secondary) precedes the rename anchor (whose span is primary), as the
/// span order puts secondary locations first.
pub open spec fn spec_anchor_lt(a: Anchor, b: Anchor) -> bool {
    ||| a.spec_unify().0 < b.spec_unify().0
    ||| (a.spec_unify().0 == b.spec_unify().0 && a.spec_unify().1 < b.spec_unify().1)
    ||| (a.spec_unify().0 == b.spec_unify().0 && a.spec_unify().1 == b.spec_unify().1
        && !a.spec_is_rename() && b.spec_is_rename())
}

/// Whether `a` precedes `b` in the per-file anchor order.
pub fn anchor_lt(a: &Anchor, b: &Anchor) -> (r: bool)
    ensures
        r == spec_anchor_lt(*a, *b),
{
    let pa: (usize, usize) = *a.as_ref().unify();
    let pb: (usize, usize) = *b.as_ref().unify();
    let ra: bool = match a {
        Category::ContextSelectorRename(_) => true,
        Category::WithContextArgument(_) => false,
    };
    let rb: bool = match b {
        Category::ContextSelectorRename(_) => true,
        Category::WithContextArgument(_) => false,
    };
    pa.0 < pb.0 || (pa.0 == pb.0 && pa.1 < pb.1) || (pa.0 == pb.0 && pa.1 == pb.1 && !ra && rb)
}

/// Whether `a` and `b` are the same anchor.
pub fn anchor_eq(a: &Anchor, b: &Anchor) -> (r: bool)
    ensures
        r == (*a == *b),
{
    match (a, b) {
        (Category::ContextSelectorRename(x), Category::ContextSelectorRename(y)) => x.0 == y.0
            && x.1 == y.1,
        (Category::WithContextArgument(x), Category::WithContextArgument(y)) => x.0 == y.0 && x.1
            == y.1,
        _ => false,
    }
}

impl EditPlan {
    /// Well-formed: files strictly ordered by name (hence unique), each with
    /// at least one anchor, each file's anchors strictly ordered.
    pub open spec fn wf(self) -> bool {
        &&& forall|j1: int, j2: int|
            0 <= j1 < j2 < self.files@.len() ==> spec_bytes_lt(
                (#[trigger] self.files@[j1]).file_name@,
                (#[trigger] self.files@[j2]).file_name@,
            )
        &&& forall|j: int|
            0 <= j < self.files@.len() ==> (#[trigger] self.files@[j]).anchors@.len() > 0
        &&& forall|j: int, l1: int, l2: int|
            0 <= j < self.files@.len() && 0 <= l1 < l2 < self.files@[j].anchors@.len()
                ==> spec_anchor_lt(
                #[trigger] self.files@[j].anchors@[l1],
                #[trigger] self.files@[j].anchors@[l2],
            )
    }

    /// Whether the plan calls for no edit at all.
    pub open spec fn spec_is_empty(self) -> bool {
        self.files@.len() == 0
    }

    /// Whether the plan calls for no edit at all.
    pub fn is_empty(&self) -> (r: bool)
        ensures
            r == self.spec_is_empty(),
    {
        self.files.len() == 0
    }

    /// Whether the plan holds this anchor for this file.
    pub open spec fn contains_anchor(self, f: Seq<u8>, a: Anchor) -> bool {
        exists|j: int, l: int|
            #![trigger self.files@[j].anchors@[l]]
            0 <= j < self.files@.len() && 0 <= l < self.files@[j].anchors@.len()
                && self.files@[j].file_name@ == f && self.files@[j].anchors@[l] == a
    }
}

/// The anchor a span yields under the given category.
pub open spec fn mk_anchor(is_rename: bool, s: Span) -> Anchor {
    if is_rename {
        Category::ContextSelectorRename((s.byte_start, s.byte_end))
    } else {
        Category::WithContextArgument((s.byte_start, s.byte_end))
    }
}

/// Insert one anchor for one file into the plan, keeping it well formed; an
/// anchor already present for its file is not duplicated.
fn insert_anchor(plan: &mut EditPlan, s: &Span, is_rename: bool)
    requires
        old(plan).wf(),
    ensures
        final(plan).wf(),
        final(plan).contains_anchor(s.file_name@, mk_anchor(is_rename, *s)),
        forall|f: Seq<u8>, x: Anchor|
            old(plan).contains_anchor(f, x) ==> final(plan).contains_anchor(f, x),
        forall|j: int, l: int|
            #![trigger final(plan).files@[j].anchors@[l]]
            0 <= j < final(plan).files@.len() && 0 <= l < final(plan).files@[j].anchors@.len()
                ==> (old(plan).contains_anchor(
                final(plan).files@[j].file_name@,
                final(plan).files@[j].anchors@[l],
            ) || (final(plan).files@[j].file_name@ == s.file_name@ && final(plan).files@[j].anchors@[l] == mk_anchor(is_rename, *s))),
{
    let a: Anchor = if is_rename {
        Category::ContextSelectorRename((s.byte_start, s.byte_end))
    } else {
        Category::WithContextArgument((s.byte_start, s.byte_end))
    };
    let mut p: usize = 0;
    while p < plan.files.len() && bytes_lt(&plan.files[p].file_name, &s.file_name)
        invariant
            0 <= p <= plan.files@.len(),
            forall|k: int|
                0 <= k < p ==> spec_bytes_lt(
                    (#[trigger] plan.files@[k]).file_name@,
                    s.file_name@,
                ),
        decreases plan.files@.len() - p,
    {
        p += 1;
    }
    if p < plan.files.len() && bytes_eq(&plan.files[p].file_name, &s.file_name) {
        let ghost old_files = plan.files@;
        let mut entry = plan.files.remove(p);
        let ghost old_anchors = entry.anchors@;
        let mut q: usize = 0;
        while q < entry.anchors.len() && anchor_lt(&entry.anchors[q], &a)
            invariant
                0 <= q <= entry.anchors@.len(),
                entry.anchors@ == old_anchors,
                forall|k: int| 0 <= k < q ==> spec_anchor_lt(#[trigger] entry.anchors@[k], a),
            decreases entry.anchors@.len() - q,
        {
            q += 1;
        }
        let already = q < entry.anchors.len() && anchor_eq(&entry.anchors[q], &a);
        if !already {
            entry.anchors.insert(q, a);
        }
        let ghost new_anchors = entry.anchors@;
        plan.files.insert(p, entry);
        proof {
            assert(plan.files@ =~= old_files.update(p as int, plan.files@[p as int]));
            assert(forall|j: int|
                0 <= j < old_files.len() && j != p ==> plan.files@[j] == old_files[j]);
            assert(plan.files@[p as int].file_name@ == s.file_name@);
            assert(plan.files@[p as int].anchors@ == new_anchors);
            // facts about the old anchors around position q
            assert(forall|k1: int, k2: int|
                0 <= k1 < k2 < old_anchors.len() ==> spec_anchor_lt(
                    #[trigger] old_anchors[k1],
                    #[trigger] old_anchors[k2],
                ));
            if already {
                assert(new_anchors[q as int] == a);
            } else {
                assert(new_anchors == old_anchors.insert(q as int, a));
                assert(q < old_anchors.len() ==> !spec_anchor_lt(old_anchors[q as int], a)
                    && old_anchors[q as int] != a);
                assert forall|k: int| q <= k < old_anchors.len() implies spec_anchor_lt(
                    a,
                    #[trigger] old_anchors[k],
                ) by {
                    assert(!spec_anchor_lt(old_anchors[q as int], a));
                    assert(old_anchors[q as int] != a);
                    assert(spec_anchor_lt(a, old_anchors[q as int]));
                    if k > q {
                        assert(spec_anchor_lt(old_anchors[q as int], old_anchors[k]));
                    }
                }
                assert forall|l1: int, l2: int| 0 <= l1 < l2 < new_anchors.len() implies
                    spec_anchor_lt(new_anchors[l1], new_anchors[l2]) by {
                    if l1 == q as int {
                        assert(new_anchors[l2] == old_anchors[l2 - 1]);
                    } else if l2 == q as int {
                        assert(new_anchors[l1] == old_anchors[l1]);
                    }
                }
                assert(new_anchors[q as int] == a);
            }
            assert(plan.contains_anchor(s.file_name@, a)) by {
                assert(plan.files@[p as int].anchors@[q as int] == a);
            }
            assert forall|f: Seq<u8>, x: Anchor| old(plan).contains_anchor(f, x) implies
                plan.contains_anchor(f, x) by {
                let (j, l) = choose|j: int, l: int|
                    #![trigger old_files[j].anchors@[l]]
                    0 <= j < old_files.len() && 0 <= l < old_files[j].anchors@.len()
                        && old_files[j].file_name@ == f && old_files[j].anchors@[l] == x;
                if j != p as int {
                    assert(plan.files@[j].anchors@[l] == x);
                } else if already || l < q as int {
                    assert(plan.files@[p as int].anchors@[l] == x);
                } else {
                    assert(plan.files@[p as int].anchors@[l + 1] == x);
                }
            }
            assert forall|j: int, l: int|
                0 <= j < plan.files@.len() && 0 <= l < plan.files@[j].anchors@.len() implies (old(plan).contains_anchor(plan.files@[j].file_name@, plan.files@[j].anchors@[l]) || (
            plan.files@[j].file_name@ == s.file_name@ && plan.files@[j].anchors@[l] == a)) by {
                if j != p as int {
                    assert(old_files[j].anchors@[l] == plan.files@[j].anchors@[l]);
                } else if already {
                    assert(old_files[p as int].anchors@[l] == plan.files@[j].anchors@[l]);
                } else if l < q as int {
                    assert(old_files[p as int].anchors@[l] == plan.files@[j].anchors@[l]);
                } else if l == q as int {
                    assert(plan.files@[j].anchors@[l] == a);
                } else {
                    assert(old_files[p as int].anchors@[l - 1] == plan.files@[j].anchors@[l]);
                }
            }
        }
    } else {
        proof {
            if p < plan.files@.len() {
                lemma_bytes_lt_order(plan.files@[p as int].file_name@, s.file_name@);
                assert(spec_bytes_lt(s.file_name@, plan.files@[p as int].file_name@));
            }
        }
        let mut anchors: Vec<Anchor> = Vec::new();
        anchors.push(a);
        let name = s.duplicate().file_name;
        let ghost old_files = plan.files@;
        let entry = FileEdits { file_name: name, anchors };
        plan.files.insert(p, entry);
        proof {
            assert(plan.files@ == old_files.insert(p as int, entry));
            assert(plan.files@[p as int].file_name@ == s.file_name@);
            assert(plan.files@[p as int].anchors@ =~= seq![a]);
            assert forall|k: int| p < k < plan.files@.len() implies spec_bytes_lt(
                s.file_name@,
                (#[trigger] plan.files@[k]).file_name@,
            ) by {
                assert(plan.files@[k] == old_files[k - 1]);
                if k - 1 > p {
                    assert(spec_bytes_lt(
                        old_files[p as int].file_name@,
                        old_files[k - 1].file_name@,
                    ));
                    lemma_bytes_lt_trans(
                        s.file_name@,
                        old_files[p as int].file_name@,
                        old_files[k - 1].file_name@,
                    );
                }
            }
            assert forall|j1: int, j2: int| 0 <= j1 < j2 < plan.files@.len() implies
                spec_bytes_lt(
                (#[trigger] plan.files@[j1]).file_name@,
                (#[trigger] plan.files@[j2]).file_name@,
            ) by {
                if j1 == p as int {
                    assert(spec_bytes_lt(s.file_name@, plan.files@[j2].file_name@));
                } else if j2 == p as int {
                    assert(plan.files@[j1] == old_files[j1]);
                } else if j1 < p as int && j2 > p as int {
                    assert(plan.files@[j1] == old_files[j1]);
                    lemma_bytes_lt_trans(
                        old_files[j1].file_name@,
                        s.file_name@,
                        plan.files@[j2].file_name@,
                    );
                } else if j1 < p as int && j2 < p as int {
                    assert(plan.files@[j1] == old_files[j1] && plan.files@[j2] == old_files[j2]);
                } else {
                    assert(plan.files@[j1] == old_files[j1 - 1] && plan.files@[j2] == old_files[j2
                        - 1]);
                }
            }
            assert(plan.contains_anchor(s.file_name@, a)) by {
                assert(plan.files@[p as int].anchors@[0] == a);
            }
            assert forall|f: Seq<u8>, x: Anchor| old(plan).contains_anchor(f, x) implies
                plan.contains_anchor(f, x) by {
                let (j, l) = choose|j: int, l: int|
                    #![trigger old_files[j].anchors@[l]]
                    0 <= j < old_files.len() && 0 <= l < old_files[j].anchors@.len()
                        && old_files[j].file_name@ == f && old_files[j].anchors@[l] == x;
                if j < p as int {
                    assert(plan.files@[j].anchors@[l] == x);
                } else {
                    assert(plan.files@[j + 1].anchors@[l] == x);
                }
            }
            assert forall|j: int, l: int|
                0 <= j < plan.files@.len() && 0 <= l < plan.files@[j].anchors@.len() implies (old(plan).contains_anchor(plan.files@[j].file_name@, plan.files@[j].anchors@[l]) || (
            plan.files@[j].file_name@ == s.file_name@ && plan.files@[j].anchors@[l] == a)) by {
                if j < p as int {
                    assert(old_files[j].anchors@[l] == plan.files@[j].anchors@[l]);
                } else if j == p as int {
                    assert(plan.files@[j].anchors@[l] == a);
                } else {
                    assert(old_files[j - 1].anchors@[l] == plan.files@[j].anchors@[l]);
                }
            }
        }
    }
}

/// Collect one message's candidates into the plan.
fn collect_message(plan: &mut EditPlan, m: &Message)
    requires
        old(plan).wf(),
    ensures
        final(plan).wf(),
        forall|k: int|
            #![trigger message_candidates(*m)[k]]
            0 <= k < message_candidates(*m).len() ==> final(plan).contains_anchor(
                cand_file(message_candidates(*m)[k]),
                anchor_of(message_candidates(*m)[k]),
            ),
        forall|f: Seq<u8>, x: Anchor|
            old(plan).contains_anchor(f, x) ==> final(plan).contains_anchor(f, x),
        forall|j: int, l: int|
            #![trigger final(plan).files@[j].anchors@[l]]
            0 <= j < final(plan).files@.len() && 0 <= l < final(plan).files@[j].anchors@.len()
                ==> (old(plan).contains_anchor(
                final(plan).files@[j].file_name@,
                final(plan).files@[j].anchors@[l],
            ) || exists|k: int|
                #![trigger message_candidates(*m)[k]]
                0 <= k < message_candidates(*m).len() && cand_file(message_candidates(*m)[k])
                    == final(plan).files@[j].file_name@ && anchor_of(message_candidates(*m)[k])
                    == final(plan).files@[j].anchors@[l]),
{
    match &m.code {
        Option::None => {},
        Option::Some(c) => {
            let is_rename = c.is_context_selector_rename();
            let is_with = c.is_with_context_argument();
            if is_rename || is_with {
                proof {
                    assert(message_candidates(*m) == span_candidates(is_rename, m.spans@));
                }
                let ghost plan0 = *plan;
                let mut si: usize = 0;
                while si < m.spans.len()
                    invariant
                        plan.wf(),
                        0 <= si <= m.spans@.len(),
                        message_candidates(*m) == span_candidates(is_rename, m.spans@),
                        forall|k: int|
                            #![trigger span_candidates(is_rename, m.spans@.take(si as int))[k]]
                            0 <= k < span_candidates(is_rename, m.spans@.take(si as int)).len()
                                ==> plan.contains_anchor(
                                cand_file(span_candidates(is_rename, m.spans@.take(si as int))[k]),
                                anchor_of(span_candidates(is_rename, m.spans@.take(si as int))[k]),
                            ),
                        forall|f: Seq<u8>, x: Anchor|
                            plan0.contains_anchor(f, x) ==> plan.contains_anchor(f, x),
                        forall|j: int, l: int|
                            #![trigger plan.files@[j].anchors@[l]]
                            0 <= j < plan.files@.len() && 0 <= l < plan.files@[j].anchors@.len()
                                ==> (plan0.contains_anchor(
                                plan.files@[j].file_name@,
                                plan.files@[j].anchors@[l],
                            ) || exists|k: int|
                                #![trigger span_candidates(is_rename, m.spans@.take(si as int))[k]]
                                0 <= k < span_candidates(
                                    is_rename,
                                    m.spans@.take(si as int),
                                ).len() && cand_file(
                                    span_candidates(is_rename, m.spans@.take(si as int))[k],
                                ) == plan.files@[j].file_name@ && anchor_of(
                                    span_candidates(is_rename, m.spans@.take(si as int))[k],
                                ) == plan.files@[j].anchors@[l]),
                        plan0 == *old(plan),
                    decreases m.spans@.len() - si,
                {
                    let ghost pre = span_candidates(is_rename, m.spans@.take(si as int));
                    let ghost post = span_candidates(is_rename, m.spans@.take(si as int + 1));
                    proof {
                        assert(m.spans@.take(si as int + 1).drop_last() =~= m.spans@.take(
                            si as int,
                        ));
                        assert(m.spans@.take(si as int + 1).last() == m.spans@[si as int]);
                    }
                    let s = &m.spans[si];
                    let relevant = if is_rename {
                        s.is_primary
                    } else {
                        !s.is_primary
                    };
                    if relevant {
                        let ghost c0 = (if is_rename {
                            Category::ContextSelectorRename(m.spans@[si as int])
                        } else {
                            Category::WithContextArgument(m.spans@[si as int])
                        });
                        proof {
                            assert(post == pre.push(c0));
                            assert(cand_file(c0) == s.file_name@);
                            assert(anchor_of(c0) == mk_anchor(is_rename, *s));
                        }
                        let ghost before = *plan;
                        insert_anchor(plan, s, is_rename);
                        proof {
                            assert(post[post.len() - 1] == c0);
                            assert(forall|k: int| 0 <= k < pre.len() ==> post[k] == pre[k]);
                            assert forall|j: int, l: int|
                                0 <= j < plan.files@.len() && 0 <= l < (
                                #[trigger] plan.files@[j].anchors@[l],
                                plan.files@[j].anchors@.len(),
                            ).1 implies (plan0.contains_anchor(
                                plan.files@[j].file_name@,
                                plan.files@[j].anchors@[l],
                            ) || exists|k: int|
                                #![trigger post[k]]
                                0 <= k < post.len() && cand_file(post[k])
                                    == plan.files@[j].file_name@ && anchor_of(post[k])
                                    == plan.files@[j].anchors@[l]) by {
                                let f = plan.files@[j].file_name@;
                                let x = plan.files@[j].anchors@[l];
                                if before.contains_anchor(f, x) {
                                    let (j2, l2) = choose|j2: int, l2: int|
                                        #![trigger before.files@[j2].anchors@[l2]]
                                        0 <= j2 < before.files@.len() && 0 <= l2
                                            < before.files@[j2].anchors@.len()
                                            && before.files@[j2].file_name@ == f
                                            && before.files@[j2].anchors@[l2] == x;
                                    if !plan0.contains_anchor(f, x) {
                                        let k = choose|k: int|
                                            #![trigger pre[k]]
                                            0 <= k < pre.len() && cand_file(pre[k]) == f
                                                && anchor_of(pre[k]) == x;
                                        assert(post[k] == pre[k]);
                                    }
                                } else {
                                    assert(f == s.file_name@ && x == mk_anchor(is_rename, *s));
                                    assert(post[post.len() - 1] == c0);
                                }
                            }
                        }
                    } else {
                        proof {
                            assert(post == pre);
                        }
                    }
                    si += 1;
                }
                proof {
                    assert(m.spans@.take(m.spans@.len() as int) =~= m.spans@);
                }
            }
        },
    }
}

/// Build the cycle's edit plan from its records: classify each message,
/// deduplicate byte-identical locations, group anchors by file and order
/// them ascending. The plan holds an anchor for a file exactly when the
/// records hold a candidate for it.
pub fn collect_plan(records: &Vec<DiagnosticRecord>) -> (plan: EditPlan)
    ensures
        plan.wf(),
        forall|k: int|
            #![trigger records_candidates(records@)[k]]
            0 <= k < records_candidates(records@).len() ==> plan.contains_anchor(
                cand_file(records_candidates(records@)[k]),
                anchor_of(records_candidates(records@)[k]),
            ),
        forall|j: int, l: int|
            #![trigger plan.files@[j].anchors@[l]]
            0 <= j < plan.files@.len() && 0 <= l < plan.files@[j].anchors@.len() ==> exists|k: int|
                #![trigger records_candidates(records@)[k]]
                0 <= k < records_candidates(records@).len() && cand_file(
                    records_candidates(records@)[k],
                ) == plan.files@[j].file_name@ && anchor_of(records_candidates(records@)[k])
                    == plan.files@[j].anchors@[l],
{
    let mut plan = EditPlan { files: Vec::new() };
    let mut i: usize = 0;
    while i < records.len()
        invariant
            0 <= i <= records@.len(),
            plan.wf(),
            forall|k: int|
                #![trigger records_candidates(records@.take(i as int))[k]]
                0 <= k < records_candidates(records@.take(i as int)).len()
                    ==> plan.contains_anchor(
                    cand_file(records_candidates(records@.take(i as int))[k]),
                    anchor_of(records_candidates(records@.take(i as int))[k]),
                ),
            forall|j: int, l: int|
                #![trigger plan.files@[j].anchors@[l]]
                0 <= j < plan.files@.len() && 0 <= l < plan.files@[j].anchors@.len() ==> exists|
                    k: int,
                |
                    #![trigger records_candidates(records@.take(i as int))[k]]
                    0 <= k < records_candidates(records@.take(i as int)).len() && cand_file(
                        records_candidates(records@.take(i as int))[k],
                    ) == plan.files@[j].file_name@ && anchor_of(
                        records_candidates(records@.take(i as int))[k],
                    ) == plan.files@[j].anchors@[l],
        decreases records@.len() - i,
    {
        let ghost pre = records_candidates(records@.take(i as int));
        let ghost post = records_candidates(records@.take(i as int + 1));
        proof {
            assert(records@.take(i as int + 1).drop_last() =~= records@.take(i as int));
            assert(records@.take(i as int + 1).last() == records@[i as int]);
        }
        match &records[i] {
            DiagnosticRecord::Other => {
                proof {
                    assert(post =~= pre + Seq::<Category<Span>>::empty());
                    assert(post =~= pre);
                }
            },
            DiagnosticRecord::CompilerMessage(m) => {
                let ghost before = plan;
                collect_message(&mut plan, m);
                proof {
                    assert(post =~= pre + message_candidates(*m));
                    assert(forall|k: int| 0 <= k < pre.len() ==> post[k] == pre[k]);
                    assert(forall|k: int|
                        pre.len() <= k < post.len() ==> post[k] == message_candidates(*m)[k
                            - pre.len()]);
                    assert forall|k: int| 0 <= k < post.len() implies plan.contains_anchor(
                        cand_file(#[trigger] post[k]),
                        anchor_of(post[k]),
                    ) by {
                        if k < pre.len() {
                            assert(before.contains_anchor(cand_file(pre[k]), anchor_of(pre[k])));
                        } else {
                            assert(message_candidates(*m)[k - pre.len()] == post[k]);
                        }
                    }
                    assert forall|j: int, l: int|
                        0 <= j < plan.files@.len() && 0 <= l < (
                        #[trigger] plan.files@[j].anchors@[l],
                        plan.files@[j].anchors@.len(),
                    ).1 implies exists|k: int|
                        #![trigger post[k]]
                        0 <= k < post.len() && cand_file(post[k]) == plan.files@[j].file_name@
                            && anchor_of(post[k]) == plan.files@[j].anchors@[l] by {
                        let f = plan.files@[j].file_name@;
                        let x = plan.files@[j].anchors@[l];
                        if before.contains_anchor(f, x) {
                            let (j2, l2) = choose|j2: int, l2: int|
                                #![trigger before.files@[j2].anchors@[l2]]
                                0 <= j2 < before.files@.len() && 0 <= l2
                                    < before.files@[j2].anchors@.len()
                                    && before.files@[j2].file_name@ == f
                                    && before.files@[j2].anchors@[l2] == x;
                            let k = choose|k: int|
                                #![trigger pre[k]]
                                0 <= k < pre.len() && cand_file(pre[k]) == f && anchor_of(pre[k])
                                    == x;
                            assert(post[k] == pre[k]);
                        } else {
                            let k = choose|k: int|
                                #![trigger message_candidates(*m)[k]]
                                0 <= k < message_candidates(*m).len() && cand_file(
                                    message_candidates(*m)[k],
                                ) == f && anchor_of(message_candidates(*m)[k]) == x;
                            assert(post[k + pre.len()] == message_candidates(*m)[k]);
                        }
                    }
                }
            },
        }
        i += 1;
    }
    proof {
        assert(records@.take(records@.len() as int) =~= records@);
    }
    plan
}

impl EditPlan {
    /// The plan's content: for each file in order, its name and anchors.
    pub open spec fn view_plan(self) -> Seq<(Seq<u8>, Seq<Anchor>)> {
        self.files@.map_values(|fe: FileEdits| (fe.file_name@, fe.anchors@))
    }
}

/// Whether two anchor lists are equal.
fn anchors_eq(x: &Vec<Anchor>, y: &Vec<Anchor>) -> (r: bool)
    ensures
        r == (x@ == y@),
{
    if x.len() != y.len() {
        return false;
    }
    let mut l: usize = 0;
    while l < x.len()
        invariant
            x@.len() == y@.len(),
            0 <= l <= x@.len(),
            forall|k: int| 0 <= k < l ==> x@[k] == y@[k],
        decreases x@.len() - l,
    {
        if !anchor_eq(&x[l], &y[l]) {
            return false;
        }
        l += 1;
    }
    proof {
        assert(x@ =~= y@);
    }
    true
}

/// Whether two plans call for exactly the same edits: the same files, each
/// with the same anchors in the same order. This equality drives the
/// no-progress check of the migration loop.
pub fn plan_eq(a: &EditPlan, b: &EditPlan) -> (r: bool)
    ensures
        r == (a.view_plan() == b.view_plan()),
{
    if a.files.len() != b.files.len() {
        proof {
            assert(a.view_plan().len() != b.view_plan().len());
        }
        return false;
    }
    let mut j: usize = 0;
    while j < a.files.len()
        invariant
            a.files@.len() == b.files@.len(),
            0 <= j <= a.files@.len(),
            forall|k: int| 0 <= k < j ==> a.view_plan()[k] == b.view_plan()[k],
        decreases a.files@.len() - j,
    {
        if !bytes_eq(&a.files[j].file_name, &b.files[j].file_name) {
            proof {
                assert(a.view_plan()[j as int].0 == a.files@[j as int].file_name@);
                assert(b.view_plan()[j as int].0 == b.files@[j as int].file_name@);
                assert(a.view_plan()[j as int] != b.view_plan()[j as int]);
            }
            return false;
        }
        if !anchors_eq(&a.files[j].anchors, &b.files[j].anchors) {
            proof {
                assert(a.view_plan()[j as int].1 == a.files@[j as int].anchors@);
                assert(b.view_plan()[j as int].1 == b.files@[j as int].anchors@);
                assert(a.view_plan()[j as int] != b.view_plan()[j as int]);
            }
            return false;
        }
        proof {
            assert(a.view_plan()[j as int] == b.view_plan()[j as int]);
        }
        j += 1;
    }
    proof {
        assert(a.view_plan() =~= b.view_plan());
    }
    true
}

} // verus!
