//! The edit-operation vocabulary shared by the diff engines, and the
//! validity notion that ties a sequence of operations to the two tokenized
//! texts it describes.

use vstd::prelude::*;

verus! {

/// Represents a change in the diff
#[derive(Debug, Clone, Copy, PartialEq, Eq, Structural)]
pub enum ChangeTag {
    /// No change between old and new
    Equal,
    /// Content was in old but not in new
    Delete,
    /// Content was not in old but is in new
    Insert,
}

/// The mathematical content of a [`Change`].
pub ghost struct ChangeData {
    pub tag: ChangeTag,
    pub values: Seq<(bool, Seq<char>)>,
    pub missing_newline: bool,
}

/// Represents a change with inline highlighting information
#[derive(Debug, Clone)]
pub struct Change {
    /// The tag indicating the type of change
    pub tag: ChangeTag,
    /// The values with highlighting information
    pub values: Vec<(bool, String)>,
    /// Whether the line is missing a newline
    pub missing_newline: bool,
}

impl View for Change {
    type V = ChangeData;

    open spec fn view(&self) -> ChangeData {
        ChangeData {
            tag: self.tag,
            values: self.values.deep_view(),
            missing_newline: self.missing_newline,
        }
    }
}

impl Change {
    /// Creates a new change
    pub fn new(tag: ChangeTag) -> (r: Self)
        ensures
            r@.tag == tag,
            r@.values == Seq::<(bool, Seq<char>)>::empty(),
            r@.missing_newline == false,
    {
        let r = Change { tag, values: Vec::new(), missing_newline: false };
        proof {
            assert(r@.values =~= Seq::<(bool, Seq<char>)>::empty());
        }
        r
    }

    /// Adds a value to the change
    pub fn add_value(&mut self, highlight: bool, value: String)
        ensures
            final(self)@.tag == old(self)@.tag,
            final(self)@.missing_newline == old(self)@.missing_newline,
            final(self)@.values == old(self)@.values.push((highlight, value@)),
    {
        self.values.push((highlight, value));
        proof {
            assert(self@.values =~~= old(self)@.values.push((highlight, value@)));
        }
    }

    /// Sets whether the line is missing a newline
    pub fn set_missing_newline(&mut self, missing_newline: bool)
        ensures
            final(self)@.tag == old(self)@.tag,
            final(self)@.values == old(self)@.values,
            final(self)@.missing_newline == missing_newline,
    {
        self.missing_newline = missing_newline;
    }

    /// Returns the tag for this change
    pub fn tag(&self) -> (r: ChangeTag)
        ensures
            r == self@.tag,
    {
        self.tag
    }

    /// Returns the values with highlighting information
    pub fn values(&self) -> (r: &Vec<(bool, String)>)
        ensures
            r.deep_view() == self@.values,
    {
        &self.values
    }

    /// Returns whether the line is missing a newline
    pub fn missing_newline(&self) -> (r: bool)
        ensures
            r == self@.missing_newline,
    {
        self.missing_newline
    }
}

/// Represents a diff operation
#[derive(Debug, Clone, Copy, PartialEq, Eq, Structural)]
pub struct DiffOp {
    /// The type of change
    pub tag: ChangeTag,
    /// The start index in the old text
    pub old_start: usize,
    /// The number of elements in the old text
    pub old_len: usize,
    /// The start index in the new text
    pub new_start: usize,
    /// The number of elements in the new text
    pub new_len: usize,
}

impl DiffOp {
    /// Creates a new diff operation
    pub fn new(tag: ChangeTag, old_start: usize, old_len: usize, new_start: usize, new_len: usize)
        -> (r: Self)
        ensures
            r == (DiffOp { tag, old_start, old_len, new_start, new_len }),
    {
        DiffOp { tag, old_start, old_len, new_start, new_len }
    }

    /// Returns the tag for this operation
    pub fn tag(&self) -> (r: ChangeTag)
        ensures
            r == self.tag,
    {
        self.tag
    }

    /// Returns the start index in the old text
    pub fn old_start(&self) -> (r: usize)
        ensures
            r == self.old_start,
    {
        self.old_start
    }

    /// Returns the number of elements in the old text
    pub fn old_len(&self) -> (r: usize)
        ensures
            r == self.old_len,
    {
        self.old_len
    }

    /// Returns the start index in the new text
    pub fn new_start(&self) -> (r: usize)
        ensures
            r == self.new_start,
    {
        self.new_start
    }

    /// Returns the number of elements in the new text
    pub fn new_len(&self) -> (r: usize)
        ensures
            r == self.new_len,
    {
        self.new_len
    }

    /// The tag, as spec value.
    pub open spec fn s_tag(self) -> ChangeTag {
        self.tag
    }

    /// The old-side start, as spec value.
    pub open spec fn s_old_start(self) -> int {
        self.old_start as int
    }

    /// The old-side length, as spec value.
    pub open spec fn s_old_len(self) -> int {
        self.old_len as int
    }

    /// The new-side start, as spec value.
    pub open spec fn s_new_start(self) -> int {
        self.new_start as int
    }

    /// The new-side length, as spec value.
    pub open spec fn s_new_len(self) -> int {
        self.new_len as int
    }
}

/// Well-formedness of one operation against the tokenized texts `a` and `b`:
/// the span shape fits the tag, the spans lie inside the texts, and an
/// `Equal` operation really covers equal tokens.
pub open spec fn op_wf(op: DiffOp, a: Seq<Seq<char>>, b: Seq<Seq<char>>) -> bool {
    match op.s_tag() {
        ChangeTag::Equal => op.s_old_len() == op.s_new_len() && op.s_old_len() > 0
            && op.s_old_start() + op.s_old_len() <= a.len() && op.s_new_start() + op.s_new_len()
            <= b.len() && (forall|k: int|
            0 <= k < op.s_old_len() ==> #[trigger] a[op.s_old_start() + k] == b[op.s_new_start()
                + k]),
        ChangeTag::Delete => op.s_new_len() == 0 && op.s_old_len() > 0 && op.s_old_start()
            + op.s_old_len() <= a.len(),
        ChangeTag::Insert => op.s_old_len() == 0 && op.s_new_len() > 0 && op.s_new_start()
            + op.s_new_len() <= b.len(),
    }
}

/// The operations in `ops` tile `a` up to old position `oe` and `b` up to
/// new position `ne`: contiguous, gapless, in order.
pub open spec fn ops_valid_to(
    ops: Seq<DiffOp>,
    a: Seq<Seq<char>>,
    b: Seq<Seq<char>>,
    oe: int,
    ne: int,
) -> bool
    decreases ops.len(),
{
    if ops.len() == 0 {
        oe == 0 && ne == 0
    } else {
        let op = ops.last();
        op_wf(op, a, b) && op.s_old_start() + op.s_old_len() == oe && op.s_new_start()
            + op.s_new_len() == ne && ops_valid_to(
            ops.drop_last(),
            a,
            b,
            op.s_old_start(),
            op.s_new_start(),
        )
    }
}

/// The coverage/partition invariant: the old-side spans of `ops` partition
/// `[0, a.len())` in order, and the new-side spans partition `[0, b.len())`.
pub open spec fn ops_valid(ops: Seq<DiffOp>, a: Seq<Seq<char>>, b: Seq<Seq<char>>) -> bool {
    ops_valid_to(ops, a, b, a.len() as int, b.len() as int)
}

/// The old-side tokens that a renderer walks: for `Equal` and `Delete`
/// operations the old span, nothing for `Insert`.
pub open spec fn keep_old(ops: Seq<DiffOp>, a: Seq<Seq<char>>) -> Seq<Seq<char>>
    decreases ops.len(),
{
    if ops.len() == 0 {
        Seq::empty()
    } else {
        let op = ops.last();
        keep_old(ops.drop_last(), a).add(
            match op.s_tag() {
                ChangeTag::Insert => Seq::empty(),
                _ => a.subrange(op.s_old_start(), op.s_old_start() + op.s_old_len()),
            },
        )
    }
}

/// The new-side tokens: for `Equal` and `Insert` operations the new span,
/// nothing for `Delete`.
pub open spec fn keep_new(ops: Seq<DiffOp>, b: Seq<Seq<char>>) -> Seq<Seq<char>>
    decreases ops.len(),
{
    if ops.len() == 0 {
        Seq::empty()
    } else {
        let op = ops.last();
        keep_new(ops.drop_last(), b).add(
            match op.s_tag() {
                ChangeTag::Delete => Seq::empty(),
                _ => b.subrange(op.s_new_start(), op.s_new_start() + op.s_new_len()),
            },
        )
    }
}

proof fn lemma_ops_reconstruct_to(
    ops: Seq<DiffOp>,
    a: Seq<Seq<char>>,
    b: Seq<Seq<char>>,
    oe: int,
    ne: int,
)
    requires
        ops_valid_to(ops, a, b, oe, ne),
        oe <= a.len(),
        ne <= b.len(),
    ensures
        0 <= oe,
        0 <= ne,
        keep_old(ops, a) == a.take(oe),
        keep_new(ops, b) == b.take(ne),
    decreases ops.len(),
{
    if ops.len() == 0 {
        assert(keep_old(ops, a) =~= a.take(0));
        assert(keep_new(ops, b) =~= b.take(0));
    } else {
        let op = ops.last();
        lemma_ops_reconstruct_to(ops.drop_last(), a, b, op.s_old_start(), op.s_new_start());
        assert(keep_old(ops, a) =~= a.take(oe));
        assert(keep_new(ops, b) =~= b.take(ne));
    }
}

/// The coverage law: a valid operation sequence reconstructs both texts.
/// Walking the operations in order and keeping the old-side spans of
/// `Equal` and `Delete` operations yields exactly the old tokens; keeping
/// the new-side spans of `Equal` and `Insert` operations yields exactly the
/// new tokens.
pub proof fn lemma_ops_reconstruct(ops: Seq<DiffOp>, a: Seq<Seq<char>>, b: Seq<Seq<char>>)
    requires
        ops_valid(ops, a, b),
    ensures
        keep_old(ops, a) == a,
        keep_new(ops, b) == b,
{
    lemma_ops_reconstruct_to(ops, a, b, a.len() as int, b.len() as int);
    assert(a.take(a.len() as int) =~= a);
    assert(b.take(b.len() as int) =~= b);
}

/// The mathematical content of a sequence of changes.
pub open spec fn changes_data(cs: Seq<Change>) -> Seq<ChangeData> {
    cs.map_values(|c: Change| c@)
}

/// Trait for diff algorithms
pub trait DiffAlgorithm {
    /// The token sequences the implementation decomposes a text into.
    spec fn spec_tokens(&self, s: Seq<char>) -> Seq<Seq<char>>;

    /// The operations the implementation yields for a pair of texts.
    spec fn spec_ops(&self, old: Seq<char>, new: Seq<char>) -> Seq<DiffOp>;

    /// The inline changes the implementation yields for one operation.
    spec fn spec_changes(&self, old: Seq<char>, new: Seq<char>, op: DiffOp) -> Seq<ChangeData>;

    /// Computes the diff operations between old and new text
    fn ops(&self, old: &str, new: &str) -> (r: Vec<DiffOp>)
        requires
            old@.len() < usize::MAX,
            new@.len() < usize::MAX,
        ensures
            r@ == self.spec_ops(old@, new@),
            ops_valid(r@, self.spec_tokens(old@), self.spec_tokens(new@)),
    ;

    /// Computes the inline changes for a diff operation
    fn iter_inline_changes(&self, old: &str, new: &str, op: &DiffOp) -> (r: Vec<Change>)
        requires
            old@.len() < usize::MAX,
            new@.len() < usize::MAX,
        ensures
            changes_data(r@) == self.spec_changes(old@, new@, *op),
    ;
}

/// The algorithm to use for computing diffs
#[derive(Debug, Clone, Copy, PartialEq, Eq, Structural)]
pub enum Algorithm {
    /// Use the reference engine built on the similar crate (default)
    Similar,
    /// Use our implementation of the shortest-edit-script algorithm
    Myers,
}

impl Algorithm {
    /// Returns a list of available algorithms, in preference order
    pub fn available_algorithms() -> (r: Vec<Algorithm>)
        ensures
            r@ == seq![Algorithm::Similar, Algorithm::Myers],
    {
        let mut algorithms: Vec<Algorithm> = Vec::new();
        algorithms.push(Algorithm::Similar);
        algorithms.push(Algorithm::Myers);
        proof {
            assert(algorithms@ =~= seq![Algorithm::Similar, Algorithm::Myers]);
        }
        algorithms
    }

    /// Checks if any algorithms are available
    pub fn has_available_algorithms() -> (r: bool)
        ensures
            r == true,
    {
        let algorithms = Self::available_algorithms();
        !algorithms.is_empty()
    }

    /// Returns the first available algorithm, or None if no algorithms are
    /// available
    pub fn first_available() -> (r: Option<Algorithm>)
        ensures
            r == Some(Algorithm::Similar),
    {
        let algorithms = Self::available_algorithms();
        if algorithms.is_empty() {
            None
        } else {
            Some(algorithms[0])
        }
    }
}

impl Default for Algorithm {
    /// The first available algorithm.
    fn default() -> (r: Self)
        ensures
            r == Algorithm::Similar,
    {
        match Self::first_available() {
            Some(a) => a,
            None => Algorithm::Similar,
        }
    }
}

} // verus!
