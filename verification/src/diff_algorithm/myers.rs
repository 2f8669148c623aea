//! The from-scratch shortest-edit-script engine: a longest-common-
//! subsequence table with full-history backtracking, proved to emit the
//! exact script `ses` of the specification, and with it a minimal one.

use vstd::prelude::*;

use crate::diff_algorithm::common::{
    changes_data, op_wf, ops_valid, ops_valid_to, Change, ChangeData, ChangeTag, DiffAlgorithm,
    DiffOp,
};
use crate::diff_algorithm::script::{
    lcs, lemma_lcs_bounds, lemma_script_cost_lower_bound, lemma_script_counts,
    lemma_ses_from_cost, lemma_ses_from_identical, lemma_ses_from_ok, script_cost, script_ok, ses,
    ses_from, DiffOperation,
};
use crate::text::{lemma_spec_lines_count, spec_lines, split_into_lines};

verus! {

/// Equality of two stored lines, as equality of their character sequences.
fn line_eq(x: &String, y: &String) -> (r: bool)
    ensures
        r == (x@ == y@),
{
    x.eq(y)
}

/// The table `t` holds the longest-common-subsequence lengths of all
/// prefix pairs of `a` and `b`.
pub open spec fn lcs_table_ok(t: Seq<Seq<usize>>, a: Seq<Seq<char>>, b: Seq<Seq<char>>) -> bool {
    t.len() == a.len() + 1 && (forall|i: int| 0 <= i < t.len() ==> #[trigger] t[i].len() == b.len()
        + 1) && (forall|i: int, j: int|
        0 <= i <= a.len() && 0 <= j <= b.len() ==> #[trigger] t[i][j] == lcs(
            a.take(i),
            b.take(j),
        ))
}

/// A row of zeroes, the base row of the table.
fn zero_row(n: usize) -> (r: Vec<usize>)
    requires
        n < usize::MAX,
    ensures
        r@.len() == n + 1,
        forall|j: int| 0 <= j <= n ==> r@[j] == 0,
{
    let mut r: Vec<usize> = Vec::new();
    let mut j: usize = 0;
    while j <= n
        invariant
            n < usize::MAX,
            j <= n + 1,
            r@.len() == j,
            forall|k: int| 0 <= k < j ==> r@[k] == 0,
        decreases n + 1 - j,
    {
        r.push(0);
        j = j + 1;
    }
    r
}

/// Fills the full prefix table of longest-common-subsequence lengths.
fn fill_lcs_table(old: &Vec<String>, new: &Vec<String>) -> (t: Vec<Vec<usize>>)
    requires
        old@.len() < usize::MAX,
        new@.len() < usize::MAX,
    ensures
        lcs_table_ok(t.deep_view(), old.deep_view(), new.deep_view()),
{
    let ghost a = old.deep_view();
    let ghost b = new.deep_view();
    let m: usize = old.len();
    let n: usize = new.len();
    let mut t: Vec<Vec<usize>> = Vec::new();
    t.push(zero_row(n));
    proof {
        assert forall|j: int| 0 <= j <= n implies lcs(a.take(0), b.take(j)) == 0 by {
            assert(a.take(0).len() == 0);
        }
        assert(t.deep_view().len() == 1);
        assert(t.deep_view()[0] == t@[0]@);
    }
    let mut i: usize = 1;
    while i <= m
        invariant
            m == a.len(),
            n == b.len(),
            m < usize::MAX,
            n < usize::MAX,
            old.deep_view() == a,
            new.deep_view() == b,
            1 <= i <= m + 1,
            t.deep_view().len() == i,
            forall|i2: int| 0 <= i2 < i ==> #[trigger] t.deep_view()[i2].len() == n + 1,
            forall|i2: int, j: int|
                0 <= i2 < i && 0 <= j <= n ==> #[trigger] t.deep_view()[i2][j] == lcs(
                    a.take(i2),
                    b.take(j),
                ),
        decreases m + 1 - i,
    {
        let mut row: Vec<usize> = Vec::new();
        row.push(0);
        proof {
            assert(a.take(i as int).len() > 0);
            assert(lcs(a.take(i as int), b.take(0)) == 0);
        }
        let mut j: usize = 1;
        while j <= n
            invariant
                m == a.len(),
                n == b.len(),
                m < usize::MAX,
                n < usize::MAX,
                old.deep_view() == a,
                new.deep_view() == b,
                1 <= i <= m,
                1 <= j <= n + 1,
                t.deep_view().len() == i,
                forall|i2: int| 0 <= i2 < i ==> #[trigger] t.deep_view()[i2].len() == n + 1,
                forall|i2: int, j2: int|
                    0 <= i2 < i && 0 <= j2 <= n ==> #[trigger] t.deep_view()[i2][j2] == lcs(
                        a.take(i2),
                        b.take(j2),
                    ),
                row@.len() == j,
                forall|j2: int| 0 <= j2 < j ==> #[trigger] row@[j2] == lcs(
                    a.take(i as int),
                    b.take(j2),
                ),
            decreases n + 1 - j,
        {
            let ghost ai = a.take(i as int);
            let ghost bj = b.take(j as int);
            proof {
                assert(ai.last() == a[i - 1]);
                assert(bj.last() == b[j - 1]);
                assert(ai.drop_last() =~= a.take(i as int - 1));
                assert(bj.drop_last() =~= b.take(j as int - 1));
                lemma_lcs_bounds(a.take(i as int - 1), b.take(j as int - 1));
                assert(old@[i - 1]@ == a[i - 1]);
                assert(new@[j - 1]@ == b[j - 1]);
                assert(t.deep_view()[i - 1] == t@[i - 1]@);
            }
            let v: usize = if line_eq(&old[i - 1], &new[j - 1]) {
                t[i - 1][j - 1] + 1
            } else {
                let up: usize = t[i - 1][j];
                let left: usize = row[j - 1];
                if up >= left {
                    up
                } else {
                    left
                }
            };
            proof {
                assert(v == lcs(ai, bj));
            }
            row.push(v);
            j = j + 1;
        }
        let ghost dv = t.deep_view();
        t.push(row);
        proof {
            assert(t.deep_view() =~~= dv.push(row@));
        }
        i = i + 1;
    }
    t
}

proof fn lemma_reverse_push(s: Seq<DiffOperation>, x: DiffOperation)
    ensures
        (s.push(x)).reverse() == seq![x].add(s.reverse()),
{
    assert((s.push(x)).reverse() =~= seq![x].add(s.reverse()));
}

/// Backtracks from the far corner of the table, emitting the engine's
/// script in reverse, then turns it forward.
fn backtrack_script(old: &Vec<String>, new: &Vec<String>, t: &Vec<Vec<usize>>) -> (r: Vec<
    DiffOperation,
>)
    requires
        lcs_table_ok(t.deep_view(), old.deep_view(), new.deep_view()),
    ensures
        r@ == ses(old.deep_view(), new.deep_view()),
{
    let ghost a = old.deep_view();
    let ghost b = new.deep_view();
    let m: usize = old.len();
    let n: usize = new.len();
    let mut stack: Vec<DiffOperation> = Vec::new();
    let mut i: usize = m;
    let mut j: usize = n;
    proof {
        assert(stack@.reverse() =~= Seq::<DiffOperation>::empty());
        assert(ses(a, b) =~= ses_from(a, b, i as nat, j as nat).add(stack@.reverse()));
    }
    while i > 0 || j > 0
        invariant
            m == a.len(),
            n == b.len(),
            old.deep_view() == a,
            new.deep_view() == b,
            lcs_table_ok(t.deep_view(), a, b),
            i <= m,
            j <= n,
            ses(a, b) == ses_from(a, b, i as nat, j as nat).add(stack@.reverse()),
        decreases i + j,
    {
        let ghost i0 = i;
        let ghost j0 = j;
        let ghost st0 = stack@;
        proof {
            assert(t.deep_view()[i as int] == t@[i as int]@);
            if i > 0 {
                assert(t.deep_view()[i - 1] == t@[i - 1]@);
            }
            assert(old.deep_view()[i as int - 1] == if i > 0 {
                old@[i - 1]@
            } else {
                old.deep_view()[i as int - 1]
            });
        }
        if i > 0 && j > 0 && line_eq(&old[i - 1], &new[j - 1]) {
            proof {
                assert(old@[i - 1]@ == a[i as int - 1]);
                assert(new@[j - 1]@ == b[j as int - 1]);
            }
            stack.push(DiffOperation::Equal);
            i = i - 1;
            j = j - 1;
            proof {
                assert(ses_from(a, b, i0 as nat, j0 as nat) == ses_from(
                    a,
                    b,
                    i as nat,
                    j as nat,
                ).push(DiffOperation::Equal));
                lemma_reverse_push(st0, DiffOperation::Equal);
                assert(ses(a, b) =~= ses_from(a, b, i as nat, j as nat).add(stack@.reverse()));
            }
        } else if j > 0 && (i == 0 || t[i][j - 1] >= t[i - 1][j]) {
            proof {
                if i > 0 {
                    assert(old@[i - 1]@ == a[i as int - 1]);
                    assert(new@[j - 1]@ == b[j as int - 1]);
                }
                assert(t.deep_view()[i as int][j - 1] == lcs(a.take(i as int), b.take(j as int - 1)));
            }
            stack.push(DiffOperation::Insert);
            j = j - 1;
            proof {
                assert(ses_from(a, b, i0 as nat, j0 as nat) == ses_from(
                    a,
                    b,
                    i as nat,
                    j as nat,
                ).push(DiffOperation::Insert));
                lemma_reverse_push(st0, DiffOperation::Insert);
                assert(ses(a, b) =~= ses_from(a, b, i as nat, j as nat).add(stack@.reverse()));
            }
        } else {
            proof {
                if i > 0 && j > 0 {
                    assert(old@[i - 1]@ == a[i as int - 1]);
                    assert(new@[j - 1]@ == b[j as int - 1]);
                }
            }
            stack.push(DiffOperation::Delete);
            i = i - 1;
            proof {
                assert(ses_from(a, b, i0 as nat, j0 as nat) == ses_from(
                    a,
                    b,
                    i as nat,
                    j as nat,
                ).push(DiffOperation::Delete));
                lemma_reverse_push(st0, DiffOperation::Delete);
                assert(ses(a, b) =~= ses_from(a, b, i as nat, j as nat).add(stack@.reverse()));
            }
        }
    }
    proof {
        assert(ses_from(a, b, 0, 0).len() == 0);
        assert(ses(a, b) =~= stack@.reverse());
    }
    let mut ops: Vec<DiffOperation> = Vec::new();
    while stack.len() > 0
        invariant
            ses(a, b) == ops@.add(stack@.reverse()),
        decreases stack@.len(),
    {
        let ghost st0 = stack@;
        match stack.pop() {
            Some(op) => {
                proof {
                    assert(st0 =~= st0.drop_last().push(st0.last()));
                    lemma_reverse_push(st0.drop_last(), st0.last());
                }
                ops.push(op);
                proof {
                    assert(ses(a, b) =~= ops@.add(stack@.reverse()));
                }
            },
            None => {},
        }
    }
    proof {
        assert(stack@.reverse() =~= Seq::<DiffOperation>::empty());
        assert(ses(a, b) =~= ops@);
    }
    ops
}

/// Computes the engine's edit script for two stored line sequences.
///
/// Empty inputs are handled directly; otherwise the work is done over the
/// full prefix table, picking the variant tuned for the input size.
pub fn compute_diff_operations(old: &Vec<String>, new: &Vec<String>) -> (r: Vec<DiffOperation>)
    requires
        old@.len() < usize::MAX,
        new@.len() < usize::MAX,
    ensures
        r@ == ses(old.deep_view(), new.deep_view()),
{
    let ghost a = old.deep_view();
    let ghost b = new.deep_view();
    let m: usize = old.len();
    let n: usize = new.len();
    if m == 0 && n == 0 {
        let r: Vec<DiffOperation> = Vec::new();
        proof {
            assert(ses(a, b) =~= r@);
        }
        return r;
    }
    if m == 0 {
        let mut r: Vec<DiffOperation> = Vec::new();
        let mut j: usize = 0;
        proof {
            assert(r@ =~= ses_from(a, b, 0, 0));
        }
        while j < n
            invariant
                n == b.len(),
                m == a.len(),
                m == 0,
                j <= n,
                r@ == ses_from(a, b, 0, j as nat),
            decreases n - j,
        {
            r.push(DiffOperation::Insert);
            j = j + 1;
            proof {
                assert(ses_from(a, b, 0, j as nat) == ses_from(a, b, 0, (j - 1) as nat).push(
                    DiffOperation::Insert,
                ));
            }
        }
        return r;
    }
    if n == 0 {
        let mut r: Vec<DiffOperation> = Vec::new();
        let mut i: usize = 0;
        proof {
            assert(r@ =~= ses_from(a, b, 0, 0));
        }
        while i < m
            invariant
                n == b.len(),
                m == a.len(),
                n == 0,
                i <= m,
                r@ == ses_from(a, b, i as nat, 0),
            decreases m - i,
        {
            r.push(DiffOperation::Delete);
            i = i + 1;
            proof {
                assert(ses_from(a, b, i as nat, 0) == ses_from(a, b, (i - 1) as nat, 0).push(
                    DiffOperation::Delete,
                ));
            }
        }
        return r;
    }
    if m < 100 && n < 100 {
        compute_diff_operations_small(old, new)
    } else {
        compute_diff_operations_large(old, new)
    }
}

/// Computes the edit script for small inputs over the full prefix table.
pub fn compute_diff_operations_small(old: &Vec<String>, new: &Vec<String>) -> (r: Vec<
    DiffOperation,
>)
    requires
        old@.len() < usize::MAX,
        new@.len() < usize::MAX,
    ensures
        r@ == ses(old.deep_view(), new.deep_view()),
{
    let t = fill_lcs_table(old, new);
    backtrack_script(old, new, &t)
}

/// Computes the edit script for large inputs.
///
/// Exact backtracking needs the whole history of table rows, so this path
/// also keeps the full prefix table: a two-row pass would have to rebuild
/// every row again before the walk back, and the recurrence is the same.
pub fn compute_diff_operations_large(old: &Vec<String>, new: &Vec<String>) -> (r: Vec<
    DiffOperation,
>)
    requires
        old@.len() < usize::MAX,
        new@.len() < usize::MAX,
    ensures
        r@ == ses(old.deep_view(), new.deep_view()),
{
    let t = fill_lcs_table(old, new);
    backtrack_script(old, new, &t)
}

/// How many old-side tokens the script has consumed.
pub open spec fn old_used(s: Seq<DiffOperation>) -> int
    decreases s.len(),
{
    if s.len() == 0 {
        0
    } else {
        old_used(s.drop_last()) + if s.last() is Insert {
            0int
        } else {
            1int
        }
    }
}

/// How many new-side tokens the script has consumed.
pub open spec fn new_used(s: Seq<DiffOperation>) -> int
    decreases s.len(),
{
    if s.len() == 0 {
        0
    } else {
        new_used(s.drop_last()) + if s.last() is Delete {
            0int
        } else {
            1int
        }
    }
}

/// A correct script consumes both inputs whole.
pub proof fn lemma_script_used(s: Seq<DiffOperation>, a: Seq<Seq<char>>, b: Seq<Seq<char>>)
    requires
        script_ok(s, a, b),
    ensures
        old_used(s) == a.len(),
        new_used(s) == b.len(),
    decreases s.len(),
{
    if s.len() > 0 {
        match s.last() {
            DiffOperation::Equal => lemma_script_used(s.drop_last(), a.drop_last(), b.drop_last()),
            DiffOperation::Delete => lemma_script_used(s.drop_last(), a.drop_last(), b),
            DiffOperation::Insert => lemma_script_used(s.drop_last(), a, b.drop_last()),
        }
    }
}

proof fn lemma_used_nonneg(s: Seq<DiffOperation>)
    ensures
        0 <= old_used(s) <= s.len(),
        0 <= new_used(s) <= s.len(),
    decreases s.len(),
{
    if s.len() > 0 {
        lemma_used_nonneg(s.drop_last());
    }
}

/// Consumption counters never shrink along a prefix.
proof fn lemma_used_mono(s: Seq<DiffOperation>, k: int)
    requires
        0 <= k <= s.len(),
    ensures
        0 <= old_used(s.take(k)) <= old_used(s),
        0 <= new_used(s.take(k)) <= new_used(s),
    decreases s.len() - k,
{
    lemma_used_nonneg(s.take(k));
    if k == s.len() {
        assert(s.take(k) =~= s);
    } else {
        lemma_used_mono(s, k + 1);
        assert(s.take(k + 1).drop_last() =~= s.take(k));
        assert(s.take(k + 1).last() == s[k]);
    }
}

/// The primitive operation for one script move at the given positions.
pub open spec fn unit_op(m: DiffOperation, oi: int, ni: int) -> DiffOp {
    match m {
        DiffOperation::Equal => DiffOp {
            tag: ChangeTag::Equal,
            old_start: oi as usize,
            old_len: 1,
            new_start: ni as usize,
            new_len: 1,
        },
        DiffOperation::Delete => DiffOp {
            tag: ChangeTag::Delete,
            old_start: oi as usize,
            old_len: 1,
            new_start: ni as usize,
            new_len: 0,
        },
        DiffOperation::Insert => DiffOp {
            tag: ChangeTag::Insert,
            old_start: oi as usize,
            old_len: 0,
            new_start: ni as usize,
            new_len: 1,
        },
    }
}

/// The script, move by move, as one-token operations with positions.
pub open spec fn unit_ops(s: Seq<DiffOperation>) -> Seq<DiffOp>
    decreases s.len(),
{
    if s.len() == 0 {
        Seq::empty()
    } else {
        unit_ops(s.drop_last()).push(
            unit_op(s.last(), old_used(s.drop_last()), new_used(s.drop_last())),
        )
    }
}

/// Whether two adjacent operations of one kind touch, so that they can
/// become one block.
pub open spec fn can_merge(x: DiffOp, y: DiffOp) -> bool {
    x.tag == y.tag && x.s_old_start() + x.s_old_len() == y.s_old_start() && x.s_new_start()
        + x.s_new_len() == y.s_new_start()
}

/// Two touching operations of one kind as a single block.
pub open spec fn merged_op(x: DiffOp, y: DiffOp) -> DiffOp {
    DiffOp {
        tag: x.tag,
        old_start: x.old_start,
        old_len: (x.s_old_len() + y.s_old_len()) as usize,
        new_start: x.new_start,
        new_len: (x.s_new_len() + y.s_new_len()) as usize,
    }
}

/// Merges adjacent same-kind contiguous operations into blocks.
pub open spec fn merge_ops(ops: Seq<DiffOp>) -> Seq<DiffOp>
    decreases ops.len(),
{
    if ops.len() == 0 {
        Seq::empty()
    } else {
        let r = merge_ops(ops.drop_last());
        if r.len() > 0 && can_merge(r.last(), ops.last()) {
            r.update(r.len() - 1, merged_op(r.last(), ops.last()))
        } else {
            r.push(ops.last())
        }
    }
}

/// The one-token operations of a correct script tile the two inputs.
proof fn lemma_ops_valid_to_extend(
    ops: Seq<DiffOp>,
    a1: Seq<Seq<char>>,
    b1: Seq<Seq<char>>,
    a2: Seq<Seq<char>>,
    b2: Seq<Seq<char>>,
    oe: int,
    ne: int,
)
    requires
        ops_valid_to(ops, a1, b1, oe, ne),
        a1.len() <= a2.len(),
        b1.len() <= b2.len(),
        forall|k: int| 0 <= k < a1.len() ==> a1[k] == a2[k],
        forall|k: int| 0 <= k < b1.len() ==> b1[k] == b2[k],
    ensures
        ops_valid_to(ops, a2, b2, oe, ne),
    decreases ops.len(),
{
    if ops.len() > 0 {
        let op = ops.last();
        lemma_ops_valid_to_extend(
            ops.drop_last(),
            a1,
            b1,
            a2,
            b2,
            op.s_old_start(),
            op.s_new_start(),
        );
        assert(op_wf(op, a2, b2));
    }
}

proof fn lemma_unit_ops_valid(s: Seq<DiffOperation>, a: Seq<Seq<char>>, b: Seq<Seq<char>>)
    requires
        script_ok(s, a, b),
        a.len() < usize::MAX,
        b.len() < usize::MAX,
    ensures
        ops_valid_to(unit_ops(s), a, b, a.len() as int, b.len() as int),
    decreases s.len(),
{
    lemma_script_used(s, a, b);
    if s.len() > 0 {
        let s1 = s.drop_last();
        lemma_used_nonneg(s1);
        match s.last() {
            DiffOperation::Equal => {
                lemma_unit_ops_valid(s1, a.drop_last(), b.drop_last());
                lemma_script_used(s1, a.drop_last(), b.drop_last());
                lemma_ops_valid_to_extend(
                    unit_ops(s1),
                    a.drop_last(),
                    b.drop_last(),
                    a,
                    b,
                    a.len() - 1,
                    b.len() - 1,
                );
                let op = unit_op(s.last(), a.len() - 1, b.len() - 1);
                assert(op.s_old_start() == a.len() - 1);
                assert(op.s_new_start() == b.len() - 1);
                assert(a[a.len() - 1] == b[b.len() - 1]);
                assert(op_wf(op, a, b));
                assert(unit_ops(s).last() == op);
                assert(unit_ops(s).drop_last() =~= unit_ops(s1));
            },
            DiffOperation::Delete => {
                lemma_unit_ops_valid(s1, a.drop_last(), b);
                lemma_script_used(s1, a.drop_last(), b);
                lemma_ops_valid_to_extend(
                    unit_ops(s1),
                    a.drop_last(),
                    b,
                    a,
                    b,
                    a.len() - 1,
                    b.len() as int,
                );
                let op = unit_op(s.last(), a.len() - 1, b.len() as int);
                assert(op.s_old_start() == a.len() - 1);
                assert(op.s_new_start() == b.len() as int);
                assert(op_wf(op, a, b));
                assert(unit_ops(s).last() == op);
                assert(unit_ops(s).drop_last() =~= unit_ops(s1));
            },
            DiffOperation::Insert => {
                lemma_unit_ops_valid(s1, a, b.drop_last());
                lemma_script_used(s1, a, b.drop_last());
                lemma_ops_valid_to_extend(
                    unit_ops(s1),
                    a,
                    b.drop_last(),
                    a,
                    b,
                    a.len() as int,
                    b.len() - 1,
                );
                let op = unit_op(s.last(), a.len() as int, b.len() - 1);
                assert(op.s_old_start() == a.len() as int);
                assert(op.s_new_start() == b.len() - 1);
                assert(op_wf(op, a, b));
                assert(unit_ops(s).last() == op);
                assert(unit_ops(s).drop_last() =~= unit_ops(s1));
            },
        }
    }
}

/// Merging keeps the tiling of the two inputs, and their cost.
proof fn lemma_merge_ops_valid(
    ops: Seq<DiffOp>,
    a: Seq<Seq<char>>,
    b: Seq<Seq<char>>,
    oe: int,
    ne: int,
)
    requires
        ops_valid_to(ops, a, b, oe, ne),
        a.len() < usize::MAX,
        b.len() < usize::MAX,
    ensures
        ops_valid_to(merge_ops(ops), a, b, oe, ne),
        ops_cost(merge_ops(ops)) == ops_cost(ops),
    decreases ops.len(),
{
    if ops.len() > 0 {
        let op = ops.last();
        lemma_merge_ops_valid(ops.drop_last(), a, b, op.s_old_start(), op.s_new_start());
        let r = merge_ops(ops.drop_last());
        if r.len() > 0 && can_merge(r.last(), op) {
            let c = r.last();
            assert(op_wf(c, a, b) && ops_valid_to(r.drop_last(), a, b, c.s_old_start(),
                c.s_new_start()));
            assert(op_wf(op, a, b));
            let m = merged_op(c, op);
            assert(c.s_old_len() + op.s_old_len() <= usize::MAX && c.s_new_len() + op.s_new_len()
                <= usize::MAX) by {
                match c.tag {
                    ChangeTag::Equal => {},
                    ChangeTag::Delete => {},
                    ChangeTag::Insert => {},
                }
            }
            assert(m.s_old_len() == c.s_old_len() + op.s_old_len());
            assert(m.s_new_len() == c.s_new_len() + op.s_new_len());
            let merged = r.update(r.len() - 1, m);
            assert(op_wf(m, a, b)) by {
                match m.tag {
                    ChangeTag::Equal => {
                        assert forall|k: int| 0 <= k < m.s_old_len() implies #[trigger] a[m.s_old_start()
                            + k] == b[m.s_new_start() + k] by {
                            if k < c.s_old_len() {
                                assert(a[c.s_old_start() + k] == b[c.s_new_start() + k]);
                            } else {
                                let k2 = k - c.s_old_len();
                                assert(a[op.s_old_start() + k2] == b[op.s_new_start() + k2]);
                            }
                        }
                    },
                    ChangeTag::Delete => {},
                    ChangeTag::Insert => {},
                }
            }
            assert(merged.drop_last() =~= r.drop_last());
            assert(merged.last() == m);
            assert(ops_valid_to(merged, a, b, oe, ne));
            assert(ops_cost(r) == ops_cost(r.drop_last()) + match c.tag {
                ChangeTag::Equal => 0int,
                ChangeTag::Delete => c.s_old_len(),
                ChangeTag::Insert => c.s_new_len(),
            });
            assert(ops_cost(merged) == ops_cost(merged.drop_last()) + match m.tag {
                ChangeTag::Equal => 0int,
                ChangeTag::Delete => m.s_old_len(),
                ChangeTag::Insert => m.s_new_len(),
            });
        } else {
            assert((r.push(op)).drop_last() =~= r);
        }
    }
}

/// The cost of a block sequence: deleted old tokens plus inserted new ones.
pub open spec fn ops_cost(ops: Seq<DiffOp>) -> int
    decreases ops.len(),
{
    if ops.len() == 0 {
        0
    } else {
        ops_cost(ops.drop_last()) + match ops.last().tag {
            ChangeTag::Equal => 0int,
            ChangeTag::Delete => ops.last().s_old_len(),
            ChangeTag::Insert => ops.last().s_new_len(),
        }
    }
}

proof fn lemma_unit_ops_cost(s: Seq<DiffOperation>)
    ensures
        ops_cost(unit_ops(s)) == script_cost(s),
    decreases s.len(),
{
    if s.len() > 0 {
        lemma_unit_ops_cost(s.drop_last());
        assert(unit_ops(s).drop_last() =~= unit_ops(s.drop_last()));
    }
}

proof fn lemma_unit_ops_len(s: Seq<DiffOperation>)
    ensures
        unit_ops(s).len() == s.len(),
    decreases s.len(),
{
    if s.len() > 0 {
        lemma_unit_ops_len(s.drop_last());
    }
}

proof fn lemma_unit_ops_prefix(s: Seq<DiffOperation>, k: int)
    requires
        0 <= k <= s.len(),
    ensures
        unit_ops(s).take(k) == unit_ops(s.take(k)),
    decreases s.len(),
{
    lemma_unit_ops_len(s);
    if k == s.len() {
        assert(s.take(k) =~= s);
        assert(unit_ops(s).take(k) =~= unit_ops(s));
    } else {
        lemma_unit_ops_prefix(s.drop_last(), k);
        lemma_unit_ops_len(s.drop_last());
        assert(s.take(k) =~= s.drop_last().take(k));
        assert(unit_ops(s).take(k) =~= unit_ops(s.drop_last()).take(k));
    }
}

/// Every prefix of the one-token operations tiles the consumed fronts.
proof fn lemma_unit_ops_valid_all(s: Seq<DiffOperation>, a: Seq<Seq<char>>, b: Seq<Seq<char>>)
    requires
        script_ok(s, a, b),
        a.len() < usize::MAX,
        b.len() < usize::MAX,
    ensures
        forall|k: int|
            0 <= k <= s.len() ==> ops_valid_to(
                unit_ops(#[trigger] s.take(k)),
                a,
                b,
                old_used(s.take(k)),
                new_used(s.take(k)),
            ),
    decreases s.len(),
{
    if s.len() == 0 {
        assert forall|k: int| 0 <= k <= s.len() implies ops_valid_to(
            unit_ops(#[trigger] s.take(k)),
            a,
            b,
            old_used(s.take(k)),
            new_used(s.take(k)),
        ) by {
            assert(s.take(k) =~= s);
        }
    } else {
        let s1 = s.drop_last();
        let ghost a1 = match s.last() {
            DiffOperation::Insert => a,
            _ => a.drop_last(),
        };
        let ghost b1 = match s.last() {
            DiffOperation::Delete => b,
            _ => b.drop_last(),
        };
        lemma_unit_ops_valid_all(s1, a1, b1);
        assert forall|k: int| 0 <= k <= s.len() implies ops_valid_to(
            unit_ops(#[trigger] s.take(k)),
            a,
            b,
            old_used(s.take(k)),
            new_used(s.take(k)),
        ) by {
            if k == s.len() {
                assert(s.take(k) =~= s);
                lemma_unit_ops_valid(s, a, b);
                lemma_script_used(s, a, b);
            } else {
                assert(s.take(k) =~= s1.take(k));
                lemma_ops_valid_to_extend(
                    unit_ops(s1.take(k)),
                    a1,
                    b1,
                    a,
                    b,
                    old_used(s1.take(k)),
                    new_used(s1.take(k)),
                );
            }
        }
    }
}

/// One whole-line change of the shortest-edit-script engine.
pub open spec fn line_change(tag: ChangeTag, text: Seq<char>) -> ChangeData {
    ChangeData { tag, values: seq![(false, text)], missing_newline: true }
}

/// The first `count` inline changes of the engine for one operation:
/// one whole line each, skipping spans that fall outside the texts.
pub open spec fn myers_changes_upto(
    a: Seq<Seq<char>>,
    b: Seq<Seq<char>>,
    op: DiffOp,
    count: int,
) -> Seq<ChangeData>
    decreases count,
{
    if count <= 0 {
        Seq::empty()
    } else {
        let prev = myers_changes_upto(a, b, op, count - 1);
        let k = count - 1;
        match op.s_tag() {
            ChangeTag::Equal => if op.s_old_start() + k < a.len() && op.s_new_start() + k
                < b.len() {
                prev.push(line_change(ChangeTag::Equal, a[op.s_old_start() + k]))
            } else {
                prev
            },
            ChangeTag::Delete => if op.s_old_start() + k < a.len() {
                prev.push(line_change(ChangeTag::Delete, a[op.s_old_start() + k]))
            } else {
                prev
            },
            ChangeTag::Insert => if op.s_new_start() + k < b.len() {
                prev.push(line_change(ChangeTag::Insert, b[op.s_new_start() + k]))
            } else {
                prev
            },
        }
    }
}

/// The engine's inline changes for one operation.
pub open spec fn myers_changes(a: Seq<Seq<char>>, b: Seq<Seq<char>>, op: DiffOp) -> Seq<
    ChangeData,
> {
    myers_changes_upto(
        a,
        b,
        op,
        match op.s_tag() {
            ChangeTag::Insert => op.s_new_len(),
            _ => op.s_old_len(),
        },
    )
}

/// The engine's operations for two tokenized texts: an empty input is one
/// whole-text block, anything else is the merged shortest edit script.
pub open spec fn myers_ops(a: Seq<Seq<char>>, b: Seq<Seq<char>>) -> Seq<DiffOp> {
    if a.len() == 0 && b.len() == 0 {
        Seq::empty()
    } else if a.len() == 0 {
        seq![
            DiffOp {
                tag: ChangeTag::Insert,
                old_start: 0,
                old_len: 0,
                new_start: 0,
                new_len: b.len() as usize,
            },
        ]
    } else if b.len() == 0 {
        seq![
            DiffOp {
                tag: ChangeTag::Delete,
                old_start: 0,
                old_len: a.len() as usize,
                new_start: 0,
                new_len: 0,
            },
        ]
    } else {
        merge_ops(unit_ops(ses(a, b)))
    }
}

proof fn lemma_all_equal_used(s: Seq<DiffOperation>)
    requires
        forall|k: int| 0 <= k < s.len() ==> s[k] == DiffOperation::Equal,
    ensures
        old_used(s) == s.len(),
        new_used(s) == s.len(),
    decreases s.len(),
{
    if s.len() > 0 {
        lemma_all_equal_used(s.drop_last());
    }
}

proof fn lemma_identical_single_block(t: Seq<Seq<char>>, i: nat)
    requires
        i <= t.len(),
        t.len() < usize::MAX,
    ensures
        i == 0 ==> merge_ops(unit_ops(ses_from(t, t, 0, 0))) == Seq::<DiffOp>::empty(),
        i > 0 ==> merge_ops(unit_ops(ses_from(t, t, i, i))) == seq![
            DiffOp {
                tag: ChangeTag::Equal,
                old_start: 0,
                old_len: i as usize,
                new_start: 0,
                new_len: i as usize,
            },
        ],
    decreases i,
{
    lemma_ses_from_identical(t, i);
    if i == 0 {
        assert(ses_from(t, t, 0, 0) =~= Seq::<DiffOperation>::empty());
    } else {
        lemma_identical_single_block(t, (i - 1) as nat);
        lemma_ses_from_identical(t, (i - 1) as nat);
        let s1 = ses_from(t, t, (i - 1) as nat, (i - 1) as nat);
        let s = ses_from(t, t, i, i);
        assert(s == s1.push(DiffOperation::Equal));
        assert(s.drop_last() =~= s1);
        lemma_all_equal_used(s1);
        let u = unit_op(DiffOperation::Equal, i - 1, i - 1);
        assert(unit_ops(s) == unit_ops(s1).push(u));
        assert(unit_ops(s).drop_last() =~= unit_ops(s1));
        if i == 1 {
            assert(merge_ops(unit_ops(s1)).len() == 0);
            assert(merge_ops(unit_ops(s)) =~= seq![u]);
            assert(u == DiffOp {
                tag: ChangeTag::Equal,
                old_start: 0,
                old_len: 1 as usize,
                new_start: 0,
                new_len: 1 as usize,
            });
        } else {
            let c = DiffOp {
                tag: ChangeTag::Equal,
                old_start: 0,
                old_len: (i - 1) as usize,
                new_start: 0,
                new_len: (i - 1) as usize,
            };
            assert(merge_ops(unit_ops(s1)) == seq![c]);
            assert(can_merge(c, u));
            assert(merge_ops(unit_ops(s)) =~= seq![merged_op(c, u)]);
            assert(merged_op(c, u) == DiffOp {
                tag: ChangeTag::Equal,
                old_start: 0,
                old_len: i as usize,
                new_start: 0,
                new_len: i as usize,
            });
        }
    }
}

/// Identical token sequences diff to a single `Equal` block spanning
/// everything, or to nothing when they are empty: the engine never
/// invents an `Insert` or `Delete` on equal inputs.
pub proof fn lemma_myers_ops_identical(t: Seq<Seq<char>>)
    requires
        t.len() < usize::MAX,
    ensures
        t.len() == 0 ==> myers_ops(t, t) == Seq::<DiffOp>::empty(),
        t.len() > 0 ==> myers_ops(t, t) == seq![
            DiffOp {
                tag: ChangeTag::Equal,
                old_start: 0,
                old_len: t.len() as usize,
                new_start: 0,
                new_len: t.len() as usize,
            },
        ],
{
    lemma_identical_single_block(t, t.len());
}

/// Minimality of the shortest-edit-script engine: no correct edit script
/// for the two token sequences deletes and inserts fewer tokens than the
/// engine's operations do.
pub proof fn lemma_myers_ops_minimal(a: Seq<Seq<char>>, b: Seq<Seq<char>>, s: Seq<DiffOperation>)
    requires
        script_ok(s, a, b),
        a.len() < usize::MAX,
        b.len() < usize::MAX,
    ensures
        ops_cost(myers_ops(a, b)) <= script_cost(s),
{
    lemma_script_counts(s, a, b);
    if a.len() == 0 && b.len() == 0 {
        assert(ops_cost(myers_ops(a, b)) == 0);
    } else if a.len() == 0 {
        let r = myers_ops(a, b);
        assert(r.len() == 1);
        assert(r.last().s_tag() == ChangeTag::Insert);
        assert(r.last().s_new_len() == b.len());
        assert(r.drop_last() =~= Seq::<DiffOp>::empty());
        assert(ops_cost(r.drop_last()) == 0);
        assert(ops_cost(r) == b.len());
        lemma_script_cost_lower_bound(s, a, b);
        assert(lcs(a, b) == 0);
    } else if b.len() == 0 {
        let r = myers_ops(a, b);
        assert(r.len() == 1);
        assert(r.last().s_tag() == ChangeTag::Delete);
        assert(r.last().s_old_len() == a.len());
        assert(r.drop_last() =~= Seq::<DiffOp>::empty());
        assert(ops_cost(r.drop_last()) == 0);
        assert(ops_cost(r) == a.len());
        lemma_script_cost_lower_bound(s, a, b);
        assert(lcs(a, b) == 0);
    } else {
        let script = ses(a, b);
        assert(a.take(a.len() as int) =~= a);
        assert(b.take(b.len() as int) =~= b);
        lemma_ses_from_ok(a, b, a.len(), b.len());
        lemma_ses_from_cost(a, b, a.len(), b.len());
        lemma_unit_ops_cost(script);
        lemma_unit_ops_valid(script, a, b);
        lemma_script_used(script, a, b);
        lemma_merge_ops_valid(unit_ops(script), a, b, a.len() as int, b.len() as int);
        lemma_script_cost_lower_bound(s, a, b);
    }
}

proof fn lemma_myers_changes_upto_cover(
    a: Seq<Seq<char>>,
    b: Seq<Seq<char>>,
    op: DiffOp,
    count: int,
)
    requires
        op_wf(op, a, b),
        0 <= count,
        count <= (match op.s_tag() {
            ChangeTag::Insert => op.s_new_len(),
            _ => op.s_old_len(),
        }),
    ensures
        myers_changes_upto(a, b, op, count).len() == count,
        forall|k: int|
            0 <= k < count ==> myers_changes_upto(a, b, op, count)[k] == (match op.s_tag() {
                ChangeTag::Insert => line_change(ChangeTag::Insert, b[op.s_new_start() + k]),
                _ => line_change(op.s_tag(), a[op.s_old_start() + k]),
            }),
    decreases count,
{
    if count > 0 {
        lemma_myers_changes_upto_cover(a, b, op, count - 1);
    }
}

/// The engine's inline changes cover a well-formed operation's span
/// exactly: one whole-line unemphasized change per token, in order, from
/// the old side except for inserts.  Together with the coverage law of
/// the operations this reconstructs both texts from a rendered diff.
pub proof fn lemma_myers_changes_cover(a: Seq<Seq<char>>, b: Seq<Seq<char>>, op: DiffOp)
    requires
        op_wf(op, a, b),
    ensures
        myers_changes(a, b, op).len() == (match op.s_tag() {
            ChangeTag::Insert => op.s_new_len(),
            _ => op.s_old_len(),
        }),
        forall|k: int|
            0 <= k < myers_changes(a, b, op).len() ==> myers_changes(a, b, op)[k] == (
            match op.s_tag() {
                ChangeTag::Insert => line_change(ChangeTag::Insert, b[op.s_new_start() + k]),
                _ => line_change(op.s_tag(), a[op.s_old_start() + k]),
            }),
{
    let count = match op.s_tag() {
        ChangeTag::Insert => op.s_new_len(),
        _ => op.s_old_len(),
    };
    lemma_myers_changes_upto_cover(a, b, op, count);
}

/// Implementation of the Myers diff algorithm
#[derive(Debug, Default)]
pub struct MyersDiff;

impl DiffAlgorithm for MyersDiff {
    open spec fn spec_tokens(&self, s: Seq<char>) -> Seq<Seq<char>> {
        spec_lines(s)
    }

    open spec fn spec_ops(&self, old: Seq<char>, new: Seq<char>) -> Seq<DiffOp> {
        myers_ops(spec_lines(old), spec_lines(new))
    }

    open spec fn spec_changes(&self, old: Seq<char>, new: Seq<char>, op: DiffOp) -> Seq<
        ChangeData,
    > {
        myers_changes(spec_lines(old), spec_lines(new), op)
    }

    fn ops(&self, old: &str, new: &str) -> (r: Vec<DiffOp>) {
        proof {
            lemma_spec_lines_count(old@);
            lemma_spec_lines_count(new@);
        }
        let old_lines = split_into_lines(old);
        let new_lines = split_into_lines(new);
        let ghost a = old_lines.deep_view();
        let ghost b = new_lines.deep_view();
        if old_lines.len() == 0 && new_lines.len() == 0 {
            let r: Vec<DiffOp> = Vec::new();
            proof {
                assert(r@ =~= myers_ops(a, b));
            }
            return r;
        }
        if old_lines.len() == 0 {
            let mut r: Vec<DiffOp> = Vec::new();
            r.push(DiffOp::new(ChangeTag::Insert, 0, 0, 0, new_lines.len()));
            proof {
                assert(b.len() == new_lines@.len());
                assert(r@ =~= myers_ops(a, b));
                assert(r@.drop_last() =~= Seq::<DiffOp>::empty());
                assert(ops_valid_to(r@.drop_last(), a, b, 0, 0));
                assert(op_wf(r@.last(), a, b));
                assert(ops_valid(r@, a, b));
            }
            return r;
        }
        if new_lines.len() == 0 {
            let mut r: Vec<DiffOp> = Vec::new();
            r.push(DiffOp::new(ChangeTag::Delete, 0, old_lines.len(), 0, 0));
            proof {
                assert(a.len() == old_lines@.len());
                assert(r@ =~= myers_ops(a, b));
                assert(r@.drop_last() =~= Seq::<DiffOp>::empty());
                assert(ops_valid_to(r@.drop_last(), a, b, 0, 0));
                assert(op_wf(r@.last(), a, b));
                assert(ops_valid(r@, a, b));
            }
            return r;
        }
        let script = compute_diff_operations(&old_lines, &new_lines);
        let ghost sv = script@;
        proof {
            lemma_ses_from_ok(a, b, a.len(), b.len());
            assert(a.take(a.len() as int) =~= a);
            assert(b.take(b.len() as int) =~= b);
            assert(script_ok(sv, a, b));
            lemma_script_used(sv, a, b);
            lemma_unit_ops_valid_all(sv, a, b);
        }
        // Turn the script into one-token operations with absolute positions.
        let mut unit: Vec<DiffOp> = Vec::new();
        let mut old_idx: usize = 0;
        let mut new_idx: usize = 0;
        let mut k: usize = 0;
        proof {
            assert(sv.take(0) =~= Seq::<DiffOperation>::empty());
            assert(unit@ =~= unit_ops(sv.take(0)));
        }
        while k < script.len()
            invariant
                a == old_lines.deep_view(),
                b == new_lines.deep_view(),
                a.len() < usize::MAX,
                b.len() < usize::MAX,
                script_ok(sv, a, b),
                sv == script@,
                old_used(sv) == a.len(),
                new_used(sv) == b.len(),
                k <= sv.len(),
                unit@ == unit_ops(sv.take(k as int)),
                old_idx == old_used(sv.take(k as int)),
                new_idx == new_used(sv.take(k as int)),
            decreases sv.len() - k,
        {
            proof {
                lemma_used_mono(sv, k as int + 1);
                assert(sv.take(k as int + 1).drop_last() =~= sv.take(k as int));
                assert(sv.take(k as int + 1).last() == sv[k as int]);
            }
            let m = script[k];
            match m {
                DiffOperation::Equal => {
                    unit.push(DiffOp::new(ChangeTag::Equal, old_idx, 1, new_idx, 1));
                    old_idx = old_idx + 1;
                    new_idx = new_idx + 1;
                },
                DiffOperation::Insert => {
                    unit.push(DiffOp::new(ChangeTag::Insert, old_idx, 0, new_idx, 1));
                    new_idx = new_idx + 1;
                },
                DiffOperation::Delete => {
                    unit.push(DiffOp::new(ChangeTag::Delete, old_idx, 1, new_idx, 0));
                    old_idx = old_idx + 1;
                },
            }
            k = k + 1;
            proof {
                assert(unit@ =~= unit_ops(sv.take(k as int)));
            }
        }
        proof {
            assert(sv.take(sv.len() as int) =~= sv);
        }
        // Merge adjacent operations of the same kind into blocks.
        let ghost uv = unit_ops(sv);
        proof {
            lemma_unit_ops_len(sv);
        }
        let mut merged: Vec<DiffOp> = Vec::new();
        let mut current: Option<DiffOp> = None;
        let mut k2: usize = 0;
        while k2 < unit.len()
            invariant
                a == old_lines.deep_view(),
                b == new_lines.deep_view(),
                a.len() < usize::MAX,
                b.len() < usize::MAX,
                script_ok(sv, a, b),
                sv == script@,
                old_used(sv) == a.len(),
                new_used(sv) == b.len(),
                unit@ == uv,
                uv == unit_ops(sv),
                uv.len() == sv.len(),
                k2 <= uv.len(),
                k2 == 0 ==> current is None && merged@.len() == 0,
                k2 > 0 ==> current is Some && merged@.push(current->0) == merge_ops(
                    uv.take(k2 as int),
                ),
            decreases uv.len() - k2,
        {
            let ghost kk = k2 as int;
            proof {
                lemma_unit_ops_prefix(sv, kk);
                lemma_unit_ops_prefix(sv, kk + 1);
                lemma_unit_ops_valid_all(sv, a, b);
                lemma_merge_ops_valid(
                    unit_ops(sv.take(kk)),
                    a,
                    b,
                    old_used(sv.take(kk)),
                    new_used(sv.take(kk)),
                );
                lemma_merge_ops_valid(
                    unit_ops(sv.take(kk + 1)),
                    a,
                    b,
                    old_used(sv.take(kk + 1)),
                    new_used(sv.take(kk + 1)),
                );
                assert(uv.take(kk + 1).drop_last() =~= uv.take(kk));
                assert(uv.take(kk + 1).last() == uv[kk]);
            }
            let op = unit[k2];
            let ghost mprev = merge_ops(uv.take(kk));
            let ghost mnext = merge_ops(uv.take(kk + 1));
            proof {
                assert(uv.take(kk) == unit_ops(sv.take(kk)));
                assert(uv.take(kk + 1) == unit_ops(sv.take(kk + 1)));
                assert(ops_valid_to(mnext, a, b, old_used(sv.take(kk + 1)), new_used(sv.take(kk
                    + 1))));
                if mnext.len() > 0 {
                    assert(op_wf(mnext.last(), a, b));
                }
            }
            match current {
                None => {
                    current = Some(op);
                    proof {
                        assert(mprev =~= Seq::<DiffOp>::empty());
                        assert(mnext =~= merged@.push(op));
                    }
                },
                Some(c) => {
                    proof {
                        assert(mprev == merged@.push(c));
                        assert(mprev.last() == c);
                        assert(ops_valid_to(mprev, a, b, old_used(sv.take(kk)), new_used(sv.take(
                            kk))));
                        assert(op_wf(c, a, b));
                        assert(ops_valid_to(uv.take(kk + 1), a, b, old_used(sv.take(kk + 1)),
                            new_used(sv.take(kk + 1))));
                        assert(op_wf(op, a, b));
                    }
                    if c.tag() == op.tag() && c.old_start() + c.old_len() == op.old_start()
                        && c.new_start() + c.new_len() == op.new_start() {
                        proof {
                            assert(can_merge(c, op));
                            assert(mnext == mprev.update(mprev.len() - 1, merged_op(c, op)));
                        }
                        let combined = DiffOp::new(
                            c.tag(),
                            c.old_start(),
                            c.old_len() + op.old_len(),
                            c.new_start(),
                            c.new_len() + op.new_len(),
                        );
                        current = Some(combined);
                        proof {
                            assert(combined == merged_op(c, op));
                            assert(mnext =~= merged@.push(combined));
                        }
                    } else {
                        proof {
                            assert(!can_merge(c, op));
                            assert(mnext == mprev.push(op));
                        }
                        merged.push(c);
                        current = Some(op);
                        proof {
                            assert(mnext =~= merged@.push(op));
                        }
                    }
                },
            }
            k2 = k2 + 1;
        }
        if let Some(c) = current {
            merged.push(c);
        }
        proof {
            assert(uv.take(uv.len() as int) =~= uv);
            if sv.len() == 0 {
                assert(old_used(sv) == 0);
                assert(false);
            }
            assert(merged@ == merge_ops(uv));
            assert(merged@ =~= myers_ops(a, b));
            lemma_unit_ops_valid(sv, a, b);
            lemma_merge_ops_valid(uv, a, b, a.len() as int, b.len() as int);
            assert(ops_valid(merged@, a, b));
        }
        merged
    }

    fn iter_inline_changes(&self, old: &str, new: &str, op: &DiffOp) -> (r: Vec<Change>) {
        let old_lines = split_into_lines(old);
        let new_lines = split_into_lines(new);
        let ghost a = old_lines.deep_view();
        let ghost b = new_lines.deep_view();
        let mut changes: Vec<Change> = Vec::new();
        let count: usize = match op.tag() {
            ChangeTag::Insert => op.new_len(),
            _ => op.old_len(),
        };
        let mut k: usize = 0;
        proof {
            assert(changes_data(changes@) =~= myers_changes_upto(a, b, *op, 0));
        }
        while k < count
            invariant
                a == old_lines.deep_view(),
                b == new_lines.deep_view(),
                k <= count,
                count == (match op.s_tag() {
                    ChangeTag::Insert => op.s_new_len(),
                    _ => op.s_old_len(),
                }),
                changes_data(changes@) == myers_changes_upto(a, b, *op, k as int),
            decreases count - k,
        {
            let ghost prev = changes@;
            match op.tag() {
                ChangeTag::Equal => {
                    if op.old_start() < old_lines.len() && k < old_lines.len() - op.old_start()
                        && op.new_start() < new_lines.len() && k < new_lines.len()
                        - op.new_start() {
                        let idx: usize = op.old_start() + k;
                        let mut change = Change::new(ChangeTag::Equal);
                        change.add_value(false, old_lines[idx].clone());
                        change.set_missing_newline(true);
                        changes.push(change);
                        proof {
                            assert(old_lines@[idx as int]@ == a[idx as int]);
                            assert(change@ == line_change(ChangeTag::Equal, a[op.s_old_start()
                                + k])) by {
                                assert(change@.values =~= seq![(false, a[op.s_old_start() + k])]);
                            }
                            assert(changes_data(changes@) =~= changes_data(prev).push(change@));
                        }
                    }
                },
                ChangeTag::Delete => {
                    if op.old_start() < old_lines.len() && k < old_lines.len() - op.old_start() {
                        let idx: usize = op.old_start() + k;
                        let mut change = Change::new(ChangeTag::Delete);
                        change.add_value(false, old_lines[idx].clone());
                        change.set_missing_newline(true);
                        changes.push(change);
                        proof {
                            assert(old_lines@[idx as int]@ == a[idx as int]);
                            assert(change@ == line_change(ChangeTag::Delete, a[op.s_old_start()
                                + k])) by {
                                assert(change@.values =~= seq![(false, a[op.s_old_start() + k])]);
                            }
                            assert(changes_data(changes@) =~= changes_data(prev).push(change@));
                        }
                    }
                },
                ChangeTag::Insert => {
                    if op.new_start() < new_lines.len() && k < new_lines.len() - op.new_start() {
                        let idx: usize = op.new_start() + k;
                        let mut change = Change::new(ChangeTag::Insert);
                        change.add_value(false, new_lines[idx].clone());
                        change.set_missing_newline(true);
                        changes.push(change);
                        proof {
                            assert(new_lines@[idx as int]@ == b[idx as int]);
                            assert(change@ == line_change(ChangeTag::Insert, b[op.s_new_start()
                                + k])) by {
                                assert(change@.values =~= seq![(false, b[op.s_new_start() + k])]);
                            }
                            assert(changes_data(changes@) =~= changes_data(prev).push(change@));
                        }
                    }
                },
            }
            k = k + 1;
        }
        changes
    }
}

} // verus!
