//! The mathematics of line-level edit scripts: what makes a script correct
//! for a pair of token sequences, the longest-common-subsequence function,
//! and the shortest-edit-script recurrence that the engine implements,
//! together with its optimality proof.

use vstd::prelude::*;

verus! {

/// One primitive move of an edit script.
#[derive(Debug, Clone, Copy, PartialEq, Eq, Structural)]
pub enum DiffOperation {
    /// No change between old and new
    Equal,
    /// Content was in old but not in new
    Delete,
    /// Content was not in old but is in new
    Insert,
}

/// A script is correct for `(a, b)` when walking it consumes exactly the
/// tokens of `a` on the old side and of `b` on the new side, and every
/// `Equal` move matches equal tokens.
pub open spec fn script_ok(s: Seq<DiffOperation>, a: Seq<Seq<char>>, b: Seq<Seq<char>>) -> bool
    decreases s.len(),
{
    if s.len() == 0 {
        a.len() == 0 && b.len() == 0
    } else {
        match s.last() {
            DiffOperation::Equal => a.len() > 0 && b.len() > 0 && a.last() == b.last()
                && script_ok(s.drop_last(), a.drop_last(), b.drop_last()),
            DiffOperation::Delete => a.len() > 0 && script_ok(s.drop_last(), a.drop_last(), b),
            DiffOperation::Insert => b.len() > 0 && script_ok(s.drop_last(), a, b.drop_last()),
        }
    }
}

/// How many moves of the script are `Equal`.
pub open spec fn equal_count(s: Seq<DiffOperation>) -> int
    decreases s.len(),
{
    if s.len() == 0 {
        0
    } else {
        equal_count(s.drop_last()) + if s.last() is Equal {
            1int
        } else {
            0int
        }
    }
}

/// The cost of a script: its number of `Insert` and `Delete` moves.
pub open spec fn script_cost(s: Seq<DiffOperation>) -> int
    decreases s.len(),
{
    if s.len() == 0 {
        0
    } else {
        script_cost(s.drop_last()) + if s.last() is Equal {
            0int
        } else {
            1int
        }
    }
}

/// The larger of two integers.
pub open spec fn int_max(x: int, y: int) -> int {
    if x >= y {
        x
    } else {
        y
    }
}

/// The length of a longest common subsequence of `a` and `b`.
pub open spec fn lcs(a: Seq<Seq<char>>, b: Seq<Seq<char>>) -> int
    decreases a.len() + b.len(),
{
    if a.len() == 0 || b.len() == 0 {
        0
    } else if a.last() == b.last() {
        lcs(a.drop_last(), b.drop_last()) + 1
    } else {
        int_max(lcs(a.drop_last(), b), lcs(a, b.drop_last()))
    }
}

pub proof fn lemma_lcs_bounds(a: Seq<Seq<char>>, b: Seq<Seq<char>>)
    ensures
        0 <= lcs(a, b),
        lcs(a, b) <= a.len(),
        lcs(a, b) <= b.len(),
    decreases a.len() + b.len(),
{
    if a.len() == 0 || b.len() == 0 {
    } else if a.last() == b.last() {
        lemma_lcs_bounds(a.drop_last(), b.drop_last());
    } else {
        lemma_lcs_bounds(a.drop_last(), b);
        lemma_lcs_bounds(a, b.drop_last());
    }
}

/// Dropping the last token of either sequence lowers the longest common
/// subsequence by at most one, and never raises it.
pub proof fn lemma_lcs_step(a: Seq<Seq<char>>, b: Seq<Seq<char>>)
    ensures
        a.len() > 0 ==> lcs(a.drop_last(), b) <= lcs(a, b) <= lcs(a.drop_last(), b) + 1,
        b.len() > 0 ==> lcs(a, b.drop_last()) <= lcs(a, b) <= lcs(a, b.drop_last()) + 1,
    decreases a.len() + b.len(),
{
    if a.len() == 0 || b.len() == 0 {
        lemma_lcs_bounds(a, b);
        if a.len() > 0 {
            lemma_lcs_bounds(a.drop_last(), b);
        }
        if b.len() > 0 {
            lemma_lcs_bounds(a, b.drop_last());
        }
    } else {
        let a1 = a.drop_last();
        let b1 = b.drop_last();
        lemma_lcs_step(a1, b);
        lemma_lcs_step(a, b1);
        if a.last() == b.last() {
            // lcs(a, b) == lcs(a1, b1) + 1
            lemma_lcs_step(a1, b1);
        } else {
            // lcs(a, b) == max(lcs(a1, b), lcs(a, b1))
            lemma_lcs_step(a1, b1);
        }
    }
}

/// The moves of a correct script account for both sequences.
pub proof fn lemma_script_counts(s: Seq<DiffOperation>, a: Seq<Seq<char>>, b: Seq<Seq<char>>)
    requires
        script_ok(s, a, b),
    ensures
        0 <= equal_count(s),
        0 <= script_cost(s),
        script_cost(s) == a.len() + b.len() - 2 * equal_count(s),
    decreases s.len(),
{
    if s.len() > 0 {
        match s.last() {
            DiffOperation::Equal => lemma_script_counts(s.drop_last(), a.drop_last(), b.drop_last()),
            DiffOperation::Delete => lemma_script_counts(s.drop_last(), a.drop_last(), b),
            DiffOperation::Insert => lemma_script_counts(s.drop_last(), a, b.drop_last()),
        }
    }
}

/// No correct script matches more tokens than a longest common subsequence.
pub proof fn lemma_equal_count_le_lcs(s: Seq<DiffOperation>, a: Seq<Seq<char>>, b: Seq<Seq<char>>)
    requires
        script_ok(s, a, b),
    ensures
        equal_count(s) <= lcs(a, b),
    decreases s.len(),
{
    if s.len() == 0 {
    } else {
        match s.last() {
            DiffOperation::Equal => {
                lemma_equal_count_le_lcs(s.drop_last(), a.drop_last(), b.drop_last());
            },
            DiffOperation::Delete => {
                lemma_equal_count_le_lcs(s.drop_last(), a.drop_last(), b);
                lemma_lcs_step(a, b);
            },
            DiffOperation::Insert => {
                lemma_equal_count_le_lcs(s.drop_last(), a, b.drop_last());
                lemma_lcs_step(a, b);
            },
        }
    }
}

/// Every correct script costs at least `|a| + |b| - 2 * lcs(a, b)`.
pub proof fn lemma_script_cost_lower_bound(
    s: Seq<DiffOperation>,
    a: Seq<Seq<char>>,
    b: Seq<Seq<char>>,
)
    requires
        script_ok(s, a, b),
    ensures
        script_cost(s) >= a.len() + b.len() - 2 * lcs(a, b),
{
    lemma_script_counts(s, a, b);
    lemma_equal_count_le_lcs(s, a, b);
}

/// The script the engine's backtracking builds for the prefixes
/// `a.take(i)` and `b.take(j)`: match when the last tokens agree, otherwise
/// insert when the insert side of the table is at least as good (the
/// engine's tie-break), else delete.
pub open spec fn ses_from(a: Seq<Seq<char>>, b: Seq<Seq<char>>, i: nat, j: nat) -> Seq<
    DiffOperation,
>
    decreases i + j,
{
    if i == 0 && j == 0 {
        Seq::empty()
    } else if i > 0 && j > 0 && a[i - 1] == b[j - 1] {
        ses_from(a, b, (i - 1) as nat, (j - 1) as nat).push(DiffOperation::Equal)
    } else if j > 0 && (i == 0 || lcs(a.take(i as int), b.take(j as int - 1)) >= lcs(
        a.take(i as int - 1),
        b.take(j as int),
    )) {
        ses_from(a, b, i, (j - 1) as nat).push(DiffOperation::Insert)
    } else {
        ses_from(a, b, (i - 1) as nat, j).push(DiffOperation::Delete)
    }
}

/// The engine's script for the whole of `a` and `b`.
pub open spec fn ses(a: Seq<Seq<char>>, b: Seq<Seq<char>>) -> Seq<DiffOperation> {
    ses_from(a, b, a.len(), b.len())
}

proof fn lemma_push_facts(s: Seq<DiffOperation>, x: DiffOperation)
    ensures
        (s.push(x)).last() == x,
        (s.push(x)).drop_last() == s,
        (s.push(x)).len() == s.len() + 1,
{
    assert((s.push(x)).drop_last() =~= s);
}

/// The engine's script is a correct edit script for the prefixes.
pub proof fn lemma_ses_from_ok(a: Seq<Seq<char>>, b: Seq<Seq<char>>, i: nat, j: nat)
    requires
        i <= a.len(),
        j <= b.len(),
    ensures
        script_ok(ses_from(a, b, i, j), a.take(i as int), b.take(j as int)),
    decreases i + j,
{
    let s = ses_from(a, b, i, j);
    if i == 0 && j == 0 {
        assert(a.take(0).len() == 0);
    } else if i > 0 && j > 0 && a[i - 1] == b[j - 1] {
        lemma_ses_from_ok(a, b, (i - 1) as nat, (j - 1) as nat);
        lemma_push_facts(ses_from(a, b, (i - 1) as nat, (j - 1) as nat), DiffOperation::Equal);
        assert(a.take(i as int).drop_last() =~= a.take(i as int - 1));
        assert(b.take(j as int).drop_last() =~= b.take(j as int - 1));
        assert(a.take(i as int).last() == a[i - 1]);
        assert(b.take(j as int).last() == b[j - 1]);
    } else if j > 0 && (i == 0 || lcs(a.take(i as int), b.take(j as int - 1)) >= lcs(
        a.take(i as int - 1),
        b.take(j as int),
    )) {
        lemma_ses_from_ok(a, b, i, (j - 1) as nat);
        lemma_push_facts(ses_from(a, b, i, (j - 1) as nat), DiffOperation::Insert);
        assert(b.take(j as int).drop_last() =~= b.take(j as int - 1));
    } else {
        lemma_ses_from_ok(a, b, (i - 1) as nat, j);
        lemma_push_facts(ses_from(a, b, (i - 1) as nat, j), DiffOperation::Delete);
        assert(a.take(i as int).drop_last() =~= a.take(i as int - 1));
    }
}

/// The engine's script attains the longest-common-subsequence bound: its
/// cost is exactly `i + j - 2 * lcs` on the prefixes.
pub proof fn lemma_ses_from_cost(a: Seq<Seq<char>>, b: Seq<Seq<char>>, i: nat, j: nat)
    requires
        i <= a.len(),
        j <= b.len(),
    ensures
        script_cost(ses_from(a, b, i, j)) == i + j - 2 * lcs(a.take(i as int), b.take(j as int)),
    decreases i + j,
{
    let ai = a.take(i as int);
    let bj = b.take(j as int);
    if i == 0 && j == 0 {
    } else if i > 0 && j > 0 && a[i - 1] == b[j - 1] {
        lemma_ses_from_cost(a, b, (i - 1) as nat, (j - 1) as nat);
        lemma_push_facts(ses_from(a, b, (i - 1) as nat, (j - 1) as nat), DiffOperation::Equal);
        assert(ai.drop_last() =~= a.take(i as int - 1));
        assert(bj.drop_last() =~= b.take(j as int - 1));
        assert(ai.last() == bj.last());
        assert(lcs(ai, bj) == lcs(a.take(i as int - 1), b.take(j as int - 1)) + 1);
    } else if j > 0 && (i == 0 || lcs(a.take(i as int), b.take(j as int - 1)) >= lcs(
        a.take(i as int - 1),
        b.take(j as int),
    )) {
        lemma_ses_from_cost(a, b, i, (j - 1) as nat);
        lemma_push_facts(ses_from(a, b, i, (j - 1) as nat), DiffOperation::Insert);
        assert(bj.drop_last() =~= b.take(j as int - 1));
        if i == 0 {
            assert(lcs(ai, bj) == 0);
            assert(lcs(ai, b.take(j as int - 1)) == 0);
        } else {
            assert(ai.last() == a[i - 1] && bj.last() == b[j - 1]);
            assert(ai.drop_last() =~= a.take(i as int - 1));
            assert(lcs(ai, bj) == int_max(
                lcs(a.take(i as int - 1), bj),
                lcs(ai, b.take(j as int - 1)),
            ));
            assert(lcs(ai, bj) == lcs(ai, b.take(j as int - 1)));
        }
    } else {
        lemma_ses_from_cost(a, b, (i - 1) as nat, j);
        lemma_push_facts(ses_from(a, b, (i - 1) as nat, j), DiffOperation::Delete);
        assert(ai.drop_last() =~= a.take(i as int - 1));
        if j == 0 {
            assert(lcs(ai, bj) == 0);
            assert(lcs(a.take(i as int - 1), bj) == 0);
        } else {
            assert(ai.last() == a[i - 1] && bj.last() == b[j - 1]);
            assert(bj.drop_last() =~= b.take(j as int - 1));
            assert(lcs(ai, bj) == int_max(
                lcs(a.take(i as int - 1), bj),
                lcs(ai, b.take(j as int - 1)),
            ));
            assert(lcs(ai, bj) == lcs(a.take(i as int - 1), bj));
        }
    }
}

/// The engine's script is a cheapest correct script: minimality of the
/// shortest-edit-script engine.
pub proof fn lemma_ses_minimal(
    s: Seq<DiffOperation>,
    a: Seq<Seq<char>>,
    b: Seq<Seq<char>>,
)
    requires
        script_ok(s, a, b),
    ensures
        script_cost(ses(a, b)) <= script_cost(s),
{
    assert(a.take(a.len() as int) =~= a);
    assert(b.take(b.len() as int) =~= b);
    lemma_ses_from_cost(a, b, a.len(), b.len());
    lemma_script_cost_lower_bound(s, a, b);
}

/// On identical inputs the engine's script is all `Equal` moves.
pub proof fn lemma_ses_from_identical(a: Seq<Seq<char>>, i: nat)
    requires
        i <= a.len(),
    ensures
        ses_from(a, a, i, i).len() == i,
        forall|k: int| 0 <= k < i ==> ses_from(a, a, i, i)[k] == DiffOperation::Equal,
    decreases i,
{
    if i > 0 {
        lemma_ses_from_identical(a, (i - 1) as nat);
    }
}

} // verus!
