//! The reference engine: line diffing delegated to the similar crate,
//! with the adapter logic (replace splitting, validation, change
//! assembly) verified on this side of the boundary.

use vstd::prelude::*;

use crate::diff_algorithm::common::{
    changes_data, op_wf, ops_valid, ops_valid_to, Change, ChangeData, ChangeTag, DiffAlgorithm,
    DiffOp,
};
use crate::text::{spec_sim_tokens, split_into_sim_tokens};

verus! {

/// One operation as the similar crate reports it.
#[derive(Debug, Clone, Copy, PartialEq, Eq, Structural)]
pub enum RawOp {
    /// A segment equal on both sides.
    Equal {
        /// The starting index in the old sequence.
        old_index: usize,
        /// The starting index in the new sequence.
        new_index: usize,
        /// The length of the segment.
        len: usize,
    },
    /// A segment only in the old sequence.
    Delete {
        /// The starting index in the old sequence.
        old_index: usize,
        /// The length of the old segment.
        old_len: usize,
        /// The starting index in the new sequence.
        new_index: usize,
    },
    /// A segment only in the new sequence.
    Insert {
        /// The starting index in the old sequence.
        old_index: usize,
        /// The starting index in the new sequence.
        new_index: usize,
        /// The length of the new segment.
        new_len: usize,
    },
    /// A segment replaced by another one.
    Replace {
        /// The starting index in the old sequence.
        old_index: usize,
        /// The length of the old segment.
        old_len: usize,
        /// The starting index in the new sequence.
        new_index: usize,
        /// The length of the new segment.
        new_len: usize,
    },
}

/// The operations the similar crate computes for a pair of texts.  The
/// computation is a pure function of the two texts; its value is not
/// spelled out here.
pub uninterp spec fn similar_ops_of(old: Seq<char>, new: Seq<char>) -> Seq<RawOp>;

/// Relies on similar's `TextDiff::from_lines` and `TextDiff::ops`: the
/// captured diff operations for the two texts, converted variant by
/// variant.  The result depends on the two texts alone.
#[verifier::external_body]
fn similar_line_ops(old: &str, new: &str) -> (r: Vec<RawOp>)
    ensures
        r@ == similar_ops_of(old@, new@),
{
    let diff = ::similar::TextDiff::from_lines(old, new);
    let raw = diff.ops().iter().map(|op| match *op {
        ::similar::DiffOp::Equal { old_index, new_index, len } => RawOp::Equal { old_index, new_index, len },
        ::similar::DiffOp::Delete { old_index, old_len, new_index } => RawOp::Delete { old_index, old_len, new_index },
        ::similar::DiffOp::Insert { old_index, new_index, new_len } => RawOp::Insert { old_index, new_index, new_len },
        ::similar::DiffOp::Replace { old_index, old_len, new_index, new_len } => RawOp::Replace { old_index, old_len, new_index, new_len },
    });
    raw.collect()
}

/// The operation's spans lie inside the two token sequences.  An `Equal`
/// span must fit on both sides: the engine walks an index on each.
pub open spec fn sim_op_in_bounds(ta: Seq<Seq<char>>, tb: Seq<Seq<char>>, op: DiffOp) -> bool {
    match op.s_tag() {
        ChangeTag::Equal => op.s_old_start() + op.s_old_len() <= ta.len() && op.s_new_start()
            + op.s_old_len() <= tb.len(),
        ChangeTag::Delete => op.s_old_start() + op.s_old_len() <= ta.len(),
        ChangeTag::Insert => op.s_new_start() + op.s_new_len() <= tb.len(),
    }
}

/// Relies on similar's `TextDiff::from_lines` and `TextDiff::iter_changes`:
/// for an equal or deleted span the old-side tokens of the span, for an
/// inserted span the new-side tokens, in order.  For the already-split
/// operations this adapter hands over, similar's inline-change iterator is
/// exactly this plain change iterator with no emphasis.
#[verifier::external_body]
fn similar_change_values(old: &str, new: &str, op: &DiffOp) -> (r: Vec<String>)
    requires
        sim_op_in_bounds(spec_sim_tokens(old@), spec_sim_tokens(new@), *op),
    ensures
        op.s_tag() != ChangeTag::Insert ==> r.deep_view() == spec_sim_tokens(old@).subrange(
            op.s_old_start(),
            op.s_old_start() + op.s_old_len(),
        ),
        op.s_tag() == ChangeTag::Insert ==> r.deep_view() == spec_sim_tokens(new@).subrange(
            op.s_new_start(),
            op.s_new_start() + op.s_new_len(),
        ),
{
    let diff = ::similar::TextDiff::from_lines(old, new);
    let sop = match op.tag() {
        ChangeTag::Equal => ::similar::DiffOp::Equal { old_index: op.old_start(), new_index: op.new_start(), len: op.old_len() },
        ChangeTag::Delete => ::similar::DiffOp::Delete { old_index: op.old_start(), old_len: op.old_len(), new_index: op.new_start() },
        ChangeTag::Insert => ::similar::DiffOp::Insert { old_index: op.old_start(), new_index: op.new_start(), new_len: op.new_len() },
    };
    diff.iter_changes(&sop).map(|c| c.value().to_string()).collect()
}

/// One raw operation as typed operations: a replace becomes a delete
/// directly followed by an insert over the same logical span.
pub open spec fn adapt_raw_op(raw: RawOp) -> Seq<DiffOp> {
    match raw {
        RawOp::Equal { old_index, new_index, len } => seq![
            DiffOp {
                tag: ChangeTag::Equal,
                old_start: old_index,
                old_len: len,
                new_start: new_index,
                new_len: len,
            },
        ],
        RawOp::Delete { old_index, old_len, new_index } => seq![
            DiffOp {
                tag: ChangeTag::Delete,
                old_start: old_index,
                old_len,
                new_start: new_index,
                new_len: 0,
            },
        ],
        RawOp::Insert { old_index, new_index, new_len } => seq![
            DiffOp {
                tag: ChangeTag::Insert,
                old_start: old_index,
                old_len: 0,
                new_start: new_index,
                new_len,
            },
        ],
        RawOp::Replace { old_index, old_len, new_index, new_len } => seq![
            DiffOp {
                tag: ChangeTag::Delete,
                old_start: old_index,
                old_len,
                new_start: new_index,
                new_len: 0,
            },
            DiffOp {
                tag: ChangeTag::Insert,
                old_start: (if old_index + old_len <= usize::MAX {
                    (old_index + old_len) as usize
                } else {
                    usize::MAX
                }),
                old_len: 0,
                new_start: new_index,
                new_len,
            },
        ],
    }
}

/// The whole raw operation list, adapted in order.
pub open spec fn adapt_ops(raw: Seq<RawOp>) -> Seq<DiffOp>
    decreases raw.len(),
{
    if raw.len() == 0 {
        Seq::empty()
    } else {
        adapt_ops(raw.drop_last()).add(adapt_raw_op(raw.last()))
    }
}

/// Everything deleted, then everything inserted: the valid operation
/// sequence used when the adapted operations fail validation.
pub open spec fn full_replace_ops(ta: Seq<Seq<char>>, tb: Seq<Seq<char>>) -> Seq<DiffOp> {
    let del = if ta.len() > 0 {
        seq![
            DiffOp {
                tag: ChangeTag::Delete,
                old_start: 0,
                old_len: ta.len() as usize,
                new_start: 0,
                new_len: 0,
            },
        ]
    } else {
        Seq::empty()
    };
    let ins = if tb.len() > 0 {
        seq![
            DiffOp {
                tag: ChangeTag::Insert,
                old_start: ta.len() as usize,
                old_len: 0,
                new_start: 0,
                new_len: tb.len() as usize,
            },
        ]
    } else {
        Seq::empty()
    };
    del.add(ins)
}

/// The operations of the reference engine: the adapted similar operations
/// when they tile the two token sequences, the full replacement otherwise.
pub open spec fn sim_ops(old: Seq<char>, new: Seq<char>) -> Seq<DiffOp> {
    let ta = spec_sim_tokens(old);
    let tb = spec_sim_tokens(new);
    let adapted = adapt_ops(similar_ops_of(old, new));
    if ops_valid(adapted, ta, tb) {
        adapted
    } else {
        full_replace_ops(ta, tb)
    }
}

/// One token as a change: a single unemphasized fragment, marked as
/// missing its newline when the token carries no terminator.
pub open spec fn sim_change(tag: ChangeTag, token: Seq<char>) -> ChangeData {
    ChangeData {
        tag,
        values: seq![(false, token)],
        missing_newline: !(token.len() > 0 && (token.last() == '\n' || token.last() == '\r')),
    }
}

/// The reference engine's changes for one operation: one change per token
/// of the span, from the old side except for inserts; nothing when the
/// operation's span escapes the texts.
pub open spec fn sim_changes(old: Seq<char>, new: Seq<char>, op: DiffOp) -> Seq<ChangeData> {
    let ta = spec_sim_tokens(old);
    let tb = spec_sim_tokens(new);
    if sim_op_in_bounds(ta, tb, op) {
        match op.s_tag() {
            ChangeTag::Insert => Seq::new(
                op.s_new_len() as nat,
                |k: int| sim_change(ChangeTag::Insert, tb[op.s_new_start() + k]),
            ),
            _ => Seq::new(
                op.s_old_len() as nat,
                |k: int| sim_change(op.s_tag(), ta[op.s_old_start() + k]),
            ),
        }
    } else {
        Seq::empty()
    }
}

/// Equality of two stored tokens, as equality of their character sequences.
fn token_eq(x: &String, y: &String) -> (r: bool)
    ensures
        r == (x@ == y@),
{
    x.eq(y)
}

/// Where the old-side tiling of `ops` ends.
pub open spec fn ops_end_old(ops: Seq<DiffOp>) -> int {
    if ops.len() == 0 {
        0
    } else {
        ops.last().s_old_start() + ops.last().s_old_len()
    }
}

/// Where the new-side tiling of `ops` ends.
pub open spec fn ops_end_new(ops: Seq<DiffOp>) -> int {
    if ops.len() == 0 {
        0
    } else {
        ops.last().s_new_start() + ops.last().s_new_len()
    }
}

proof fn lemma_valid_to_ends(ops: Seq<DiffOp>, a: Seq<Seq<char>>, b: Seq<Seq<char>>, oe: int, ne: int)
    requires
        ops_valid_to(ops, a, b, oe, ne),
    ensures
        oe == ops_end_old(ops),
        ne == ops_end_new(ops),
{
}

proof fn lemma_valid_take(ops: Seq<DiffOp>, a: Seq<Seq<char>>, b: Seq<Seq<char>>, k: int)
    requires
        ops_valid(ops, a, b),
        0 <= k <= ops.len(),
    ensures
        ops_valid_to(ops.take(k), a, b, ops_end_old(ops.take(k)), ops_end_new(ops.take(k))),
    decreases ops.len() - k,
{
    if k == ops.len() {
        assert(ops.take(k) =~= ops);
        lemma_valid_to_ends(ops, a, b, a.len() as int, b.len() as int);
    } else {
        lemma_valid_take(ops, a, b, k + 1);
        assert(ops.take(k + 1).drop_last() =~= ops.take(k));
        assert(ops.take(k + 1).last() == ops[k]);
        lemma_valid_to_ends(ops.take(k), a, b, ops[k].s_old_start(), ops[k].s_new_start());
    }
}

/// Decides whether `ops` tile the two token sequences: contiguous spans in
/// order, covering everything, with equal tokens under `Equal` spans.
fn check_ops(ops: &Vec<DiffOp>, ta: &Vec<String>, tb: &Vec<String>) -> (r: bool)
    ensures
        r == ops_valid(ops@, ta.deep_view(), tb.deep_view()),
{
    let ghost a = ta.deep_view();
    let ghost b = tb.deep_view();
    let tan: usize = ta.len();
    let tbn: usize = tb.len();
    let mut cur_o: usize = 0;
    let mut cur_n: usize = 0;
    let mut k: usize = 0;
    proof {
        assert(ops@.take(0) =~= Seq::<DiffOp>::empty());
        assert(a.len() == ta@.len() && b.len() == tb@.len());
    }
    while k < ops.len()
        invariant
            a == ta.deep_view(),
            b == tb.deep_view(),
            a.len() == ta@.len(),
            b.len() == tb@.len(),
            tan == a.len(),
            tbn == b.len(),
            k <= ops@.len(),
            cur_o <= a.len(),
            cur_n <= b.len(),
            ops_valid_to(ops@.take(k as int), a, b, cur_o as int, cur_n as int),
        decreases ops@.len() - k,
    {
        let ghost kk = k as int;
        let op = ops[k];
        proof {
            assert(ops@.take(kk + 1).drop_last() =~= ops@.take(kk));
            assert(ops@.take(kk + 1).last() == op);
        }
        if op.old_start() != cur_o || op.new_start() != cur_n {
            proof {
                assert(!ops_valid(ops@, a, b)) by {
                    if ops_valid(ops@, a, b) {
                        lemma_valid_take(ops@, a, b, kk + 1);
                        lemma_valid_to_ends(
                            ops@.take(kk),
                            a,
                            b,
                            op.s_old_start(),
                            op.s_new_start(),
                        );
                        lemma_valid_to_ends(ops@.take(kk), a, b, cur_o as int, cur_n as int);
                    }
                }
            }
            return false;
        }
        let shape_ok: bool = match op.tag() {
            ChangeTag::Equal => op.old_len() == op.new_len() && op.old_len() > 0 && op.old_len()
                <= ta.len() - cur_o && op.new_len() <= tb.len() - cur_n,
            ChangeTag::Delete => op.new_len() == 0 && op.old_len() > 0 && op.old_len() <= ta.len()
                - cur_o,
            ChangeTag::Insert => op.old_len() == 0 && op.new_len() > 0 && op.new_len() <= tb.len()
                - cur_n,
        };
        if !shape_ok {
            proof {
                assert(!ops_valid(ops@, a, b)) by {
                    if ops_valid(ops@, a, b) {
                        lemma_valid_take(ops@, a, b, kk + 1);
                        lemma_valid_to_ends(
                            ops@.take(kk),
                            a,
                            b,
                            op.s_old_start(),
                            op.s_new_start(),
                        );
                        assert(op_wf(op, a, b));
                    }
                }
            }
            return false;
        }
        if let ChangeTag::Equal = op.tag() {
            let mut k2: usize = 0;
            while k2 < op.old_len()
                invariant
                    a == ta.deep_view(),
                    b == tb.deep_view(),
                    a.len() == ta@.len(),
                    b.len() == tb@.len(),
                    tan == a.len(),
                    tbn == b.len(),
                    k < ops@.len(),
                    kk == k as int,
                    op == ops@[kk],
                    op.old_start == cur_o,
                    op.new_start == cur_n,
                    ops_valid_to(ops@.take(kk), a, b, cur_o as int, cur_n as int),
                    op.tag == ChangeTag::Equal,
                    cur_o + op.old_len <= a.len(),
                    cur_n + op.new_len <= b.len(),
                    op.old_len == op.new_len,
                    k2 <= op.old_len,
                    forall|j: int| 0 <= j < k2 ==> #[trigger] a[cur_o + j] == b[cur_n + j],
                decreases op.old_len - k2,
            {
                proof {
                    assert(a[cur_o + k2] == ta@[cur_o + k2]@);
                    assert(b[cur_n + k2] == tb@[cur_n + k2]@);
                }
                if !token_eq(&ta[cur_o + k2], &tb[cur_n + k2]) {
                    proof {
                        assert(!ops_valid(ops@, a, b)) by {
                            if ops_valid(ops@, a, b) {
                                lemma_valid_take(ops@, a, b, kk + 1);
                                lemma_valid_to_ends(
                                    ops@.take(kk),
                                    a,
                                    b,
                                    op.s_old_start(),
                                    op.s_new_start(),
                                );
                                assert(op_wf(op, a, b));
                                assert(a[op.s_old_start() + k2] == b[op.s_new_start() + k2]);
                            }
                        }
                    }
                    return false;
                }
                k2 = k2 + 1;
            }
        }
        proof {
            assert(op_wf(op, a, b));
            assert(ops_valid_to(ops@.take(kk + 1), a, b, op.s_old_start() + op.s_old_len(),
                op.s_new_start() + op.s_new_len()));
        }
        match op.tag() {
            ChangeTag::Equal => {
                cur_o = cur_o + op.old_len();
                cur_n = cur_n + op.new_len();
            },
            ChangeTag::Delete => {
                cur_o = cur_o + op.old_len();
            },
            ChangeTag::Insert => {
                cur_n = cur_n + op.new_len();
            },
        }
        k = k + 1;
    }
    proof {
        assert(ops@.take(k as int) =~= ops@);
    }
    if cur_o == ta.len() && cur_n == tb.len() {
        true
    } else {
        proof {
            assert(!ops_valid(ops@, a, b)) by {
                if ops_valid(ops@, a, b) {
                    lemma_valid_to_ends(ops@, a, b, a.len() as int, b.len() as int);
                    lemma_valid_to_ends(ops@, a, b, cur_o as int, cur_n as int);
                }
            }
        }
        false
    }
}

/// Implementation of the diff algorithm using the similar crate
#[derive(Debug, Default)]
pub struct SimilarDiff;

impl DiffAlgorithm for SimilarDiff {
    open spec fn spec_tokens(&self, s: Seq<char>) -> Seq<Seq<char>> {
        spec_sim_tokens(s)
    }

    open spec fn spec_ops(&self, old: Seq<char>, new: Seq<char>) -> Seq<DiffOp> {
        sim_ops(old, new)
    }

    open spec fn spec_changes(&self, old: Seq<char>, new: Seq<char>, op: DiffOp) -> Seq<
        ChangeData,
    > {
        sim_changes(old, new, op)
    }

    fn ops(&self, old: &str, new: &str) -> (r: Vec<DiffOp>) {
        let ta = split_into_sim_tokens(old);
        let tb = split_into_sim_tokens(new);
        let ghost a = spec_sim_tokens(old@);
        let ghost b = spec_sim_tokens(new@);
        let tan: usize = ta.len();
        let tbn: usize = tb.len();
        proof {
            assert(a.len() == ta@.len() && b.len() == tb@.len());
            assert(a.len() == tan && b.len() == tbn);
        }
        let raw = similar_line_ops(old, new);
        let mut adapted: Vec<DiffOp> = Vec::new();
        let mut k: usize = 0;
        proof {
            assert(raw@.take(0) =~= Seq::<RawOp>::empty());
            assert(adapted@ =~= adapt_ops(raw@.take(0)));
        }
        while k < raw.len()
            invariant
                k <= raw@.len(),
                adapted@ == adapt_ops(raw@.take(k as int)),
            decreases raw@.len() - k,
        {
            proof {
                assert(raw@.take(k as int + 1).drop_last() =~= raw@.take(k as int));
                assert(raw@.take(k as int + 1).last() == raw@[k as int]);
            }
            match raw[k] {
                RawOp::Equal { old_index, new_index, len } => {
                    adapted.push(DiffOp::new(ChangeTag::Equal, old_index, len, new_index, len));
                },
                RawOp::Delete { old_index, old_len, new_index } => {
                    adapted.push(DiffOp::new(ChangeTag::Delete, old_index, old_len, new_index, 0));
                },
                RawOp::Insert { old_index, new_index, new_len } => {
                    adapted.push(DiffOp::new(ChangeTag::Insert, old_index, 0, new_index, new_len));
                },
                RawOp::Replace { old_index, old_len, new_index, new_len } => {
                    adapted.push(DiffOp::new(ChangeTag::Delete, old_index, old_len, new_index, 0));
                    // The insert resumes where the deleted span ends.
                    let ins_start: usize = match old_index.checked_add(old_len) {
                        Some(v) => v,
                        None => usize::MAX,
                    };
                    adapted.push(DiffOp::new(ChangeTag::Insert, ins_start, 0, new_index, new_len));
                },
            }
            k = k + 1;
            proof {
                assert(adapted@ =~= adapt_ops(raw@.take(k as int)));
            }
        }
        proof {
            assert(raw@.take(raw@.len() as int) =~= raw@);
        }
        if check_ops(&adapted, &ta, &tb) {
            adapted
        } else {
            // Never reached for engine output that tiles the two texts, as
            // the engine's always does; a verified stand-in for trusting
            // the tiling.
            let mut r: Vec<DiffOp> = Vec::new();
            if ta.len() > 0 {
                r.push(DiffOp::new(ChangeTag::Delete, 0, ta.len(), 0, 0));
            }
            if tb.len() > 0 {
                r.push(DiffOp::new(ChangeTag::Insert, ta.len(), 0, 0, tb.len()));
            }
            proof {
                assert(a.len() == tan && b.len() == tbn);
                assert(r@ =~= full_replace_ops(a, b));
                let del = DiffOp {
                    tag: ChangeTag::Delete,
                    old_start: 0,
                    old_len: a.len() as usize,
                    new_start: 0,
                    new_len: 0,
                };
                let ins = DiffOp {
                    tag: ChangeTag::Insert,
                    old_start: a.len() as usize,
                    old_len: 0,
                    new_start: 0,
                    new_len: b.len() as usize,
                };
                if tan > 0 && tbn > 0 {
                    assert(r@.len() == 2);
                    assert(r@.last() == ins);
                    assert(op_wf(ins, a, b));
                    assert(r@.drop_last() =~= seq![del]);
                    assert(op_wf(del, a, b));
                    assert(r@.drop_last().drop_last() =~= Seq::<DiffOp>::empty());
                    assert(ops_valid_to(r@.drop_last().drop_last(), a, b, 0, 0));
                    assert(ops_valid_to(r@.drop_last(), a, b, a.len() as int, 0));
                    assert(ops_valid_to(r@, a, b, a.len() as int, b.len() as int));
                } else if tan > 0 {
                    assert(r@.len() == 1);
                    assert(r@.last() == del);
                    assert(op_wf(del, a, b));
                    assert(r@.drop_last() =~= Seq::<DiffOp>::empty());
                    assert(ops_valid_to(r@.drop_last(), a, b, 0, 0));
                    assert(del.s_old_start() == 0 && del.s_old_len() == a.len());
                    assert(ops_valid_to(r@, a, b, a.len() as int, b.len() as int));
                } else if tbn > 0 {
                    assert(r@.len() == 1);
                    assert(r@.last() == ins);
                    assert(op_wf(ins, a, b));
                    assert(r@.drop_last() =~= Seq::<DiffOp>::empty());
                    assert(ops_valid_to(r@.drop_last(), a, b, 0, 0));
                    assert(ins.s_old_start() == 0 && ins.s_new_len() == b.len());
                    assert(ops_valid_to(r@, a, b, a.len() as int, b.len() as int));
                } else {
                    assert(r@.len() == 0);
                    assert(ops_valid_to(r@, a, b, a.len() as int, b.len() as int));
                }
                assert(ops_valid(r@, a, b));
            }
            r
        }
    }

    fn iter_inline_changes(&self, old: &str, new: &str, op: &DiffOp) -> (r: Vec<Change>) {
        let ta = split_into_sim_tokens(old);
        let tb = split_into_sim_tokens(new);
        let ghost a = spec_sim_tokens(old@);
        let ghost b = spec_sim_tokens(new@);
        let tan: usize = ta.len();
        let tbn: usize = tb.len();
        proof {
            assert(a.len() == ta@.len() && b.len() == tb@.len());
            assert(a.len() == tan && b.len() == tbn);
        }
        let in_bounds: bool = match op.tag() {
            ChangeTag::Equal => op.old_start() <= ta.len() && op.old_len() <= ta.len()
                - op.old_start() && op.new_start() <= tb.len() && op.old_len() <= tb.len()
                - op.new_start(),
            ChangeTag::Delete => op.old_start() <= ta.len() && op.old_len() <= ta.len()
                - op.old_start(),
            ChangeTag::Insert => op.new_start() <= tb.len() && op.new_len() <= tb.len()
                - op.new_start(),
        };
        let mut changes: Vec<Change> = Vec::new();
        if !in_bounds {
            proof {
                assert(changes_data(changes@) =~= sim_changes(old@, new@, *op));
            }
            return changes;
        }
        proof {
            assert(sim_op_in_bounds(a, b, *op));
        }
        let values = similar_change_values(old, new, op);
        let tag = op.tag();
        let ghost target = sim_changes(old@, new@, *op);
        proof {
            assert(values.deep_view().len() == values@.len());
            assert(target.len() == values@.len());
            assert forall|j: int| 0 <= j < values@.len() implies #[trigger] values@[j]@ == (
            match op.s_tag() {
                ChangeTag::Insert => spec_sim_tokens(new@)[op.s_new_start() + j],
                _ => spec_sim_tokens(old@)[op.s_old_start() + j],
            }) by {
                assert(values.deep_view()[j] == values@[j]@);
            }
        }
        let mut k: usize = 0;
        while k < values.len()
            invariant
                target == sim_changes(old@, new@, *op),
                target.len() == values@.len(),
                k <= values@.len(),
                tag == op.s_tag(),
                forall|j: int| 0 <= j < values@.len() ==> #[trigger] values@[j]@ == (match op.s_tag() {
                    ChangeTag::Insert => spec_sim_tokens(new@)[op.s_new_start() + j],
                    _ => spec_sim_tokens(old@)[op.s_old_start() + j],
                }),
                changes_data(changes@) == target.take(k as int),
            decreases values@.len() - k,
        {
            let s: String = values[k].clone();
            let n: usize = s.as_str().unicode_len();
            let has_terminator: bool = if n > 0 {
                let c = s.as_str().get_char(n - 1);
                c == '\n' || c == '\r'
            } else {
                false
            };
            let mut change = Change::new(tag);
            change.add_value(false, s);
            change.set_missing_newline(!has_terminator);
            let ghost prev = changes@;
            changes.push(change);
            k = k + 1;
            proof {
                assert(change@.values =~= seq![(false, values@[k - 1]@)]);
                assert(change@ == target[k - 1]);
                assert(changes_data(changes@) =~= changes_data(prev).push(change@));
                assert(changes_data(changes@) =~= target.take(k as int));
            }
        }
        proof {
            assert(target.take(values@.len() as int) =~= target);
        }
        changes
    }
}

} // verus!
