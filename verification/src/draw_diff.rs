//! The rendering engine: one pass over the algorithm's operations and
//! inline changes, writing themed text.
//!
//! The contracts here are relational: each theme hook pins what it may
//! return through its `_ok` predicate, and the rendered output is the
//! header followed by, for every operation in order and every change of
//! that operation, the prefix for its tag, its fragments (highlighted ones
//! passed through the highlight hook first), and the line end where the
//! change lacks its own newline.

use vstd::prelude::*;

use crate::diff_algorithm::common::{
    changes_data, Algorithm, Change, ChangeData, ChangeTag, DiffAlgorithm, DiffOp,
};
use crate::diff_algorithm::factory::{DiffAlgorithmFactory, DiffEngine};
use crate::diff_algorithm::myers::MyersDiff;
use crate::diff_algorithm::similar::SimilarDiff;
use crate::themes::theme::Theme;

verus! {

/// What the prefix written for `tag` may be.
pub open spec fn prefix_rel<T: Theme>(t: &T, tag: ChangeTag, r: Seq<char>) -> bool {
    match tag {
        ChangeTag::Equal => t.equal_prefix_ok(r),
        ChangeTag::Delete => t.delete_prefix_ok(r),
        ChangeTag::Insert => t.insert_prefix_ok(r),
    }
}

/// What the content formatting for `tag` may turn `i` into.
pub open spec fn content_rel<T: Theme>(t: &T, tag: ChangeTag, i: Seq<char>, r: Seq<char>) -> bool {
    match tag {
        ChangeTag::Equal => t.equal_content_ok(i, r) || r == i,
        ChangeTag::Delete => t.delete_content_ok(i, r) || r == i,
        ChangeTag::Insert => t.insert_line_ok(i, r) || r == i,
    }
}

/// What the highlighting for `tag` may turn `i` into.  Unchanged content
/// is never emphasized.
pub open spec fn highlight_rel<T: Theme>(t: &T, tag: ChangeTag, i: Seq<char>, r: Seq<char>) -> bool {
    match tag {
        ChangeTag::Equal => r == i,
        ChangeTag::Delete => t.highlight_delete_ok(i, r) || r == i,
        ChangeTag::Insert => t.highlight_insert_ok(i, r) || r == i,
    }
}

/// What may be written for one fragment of a change.
pub open spec fn piece_rel<T: Theme>(
    t: &T,
    tag: ChangeTag,
    piece: (bool, Seq<char>),
    r: Seq<char>,
) -> bool {
    if piece.0 {
        exists|h: Seq<char>| highlight_rel(t, tag, piece.1, h) && content_rel(t, tag, h, r)
    } else {
        content_rel(t, tag, piece.1, r)
    }
}

/// What may be written for the fragments of a change, in order.
pub open spec fn pieces_rel<T: Theme>(
    t: &T,
    tag: ChangeTag,
    values: Seq<(bool, Seq<char>)>,
    r: Seq<char>,
) -> bool
    decreases values.len(),
{
    if values.len() == 0 {
        r == Seq::<char>::empty()
    } else {
        exists|r1: Seq<char>, r2: Seq<char>|
            r == r1.add(r2) && pieces_rel(t, tag, values.drop_last(), r1) && piece_rel(
                t,
                tag,
                values.last(),
                r2,
            )
    }
}

/// What the written line end may be.
pub open spec fn line_end_rel<T: Theme>(t: &T, r: Seq<char>) -> bool {
    t.line_end_ok(r) || r == "\n"@
}

/// What the trailing-newline marker may be.
pub open spec fn marker_rel<T: Theme>(t: &T, r: Seq<char>) -> bool {
    t.trailing_lf_marker_ok(r) || r == "\u{240a}"@
}

/// What may be written for one change: prefix, fragments, and the line
/// end when the change misses its newline.
pub open spec fn change_rel<T: Theme>(t: &T, ch: ChangeData, r: Seq<char>) -> bool {
    exists|p: Seq<char>, body: Seq<char>, e: Seq<char>|
        r == p.add(body).add(e) && prefix_rel(t, ch.tag, p) && pieces_rel(t, ch.tag, ch.values, body)
            && (if ch.missing_newline {
            line_end_rel(t, e)
        } else {
            e == Seq::<char>::empty()
        })
}

/// What may be written for a list of changes, in order.
pub open spec fn changes_rel<T: Theme>(t: &T, chs: Seq<ChangeData>, r: Seq<char>) -> bool
    decreases chs.len(),
{
    if chs.len() == 0 {
        r == Seq::<char>::empty()
    } else {
        exists|r1: Seq<char>, r2: Seq<char>|
            r == r1.add(r2) && changes_rel(t, chs.drop_last(), r1) && change_rel(
                t,
                chs.last(),
                r2,
            )
    }
}

/// What may be written for a list of operations, in order: the changes
/// the algorithm yields for each operation.
pub open spec fn ops_rel<T: Theme, A: DiffAlgorithm>(
    t: &T,
    alg: &A,
    old: Seq<char>,
    new: Seq<char>,
    ops: Seq<DiffOp>,
    r: Seq<char>,
) -> bool
    decreases ops.len(),
{
    if ops.len() == 0 {
        r == Seq::<char>::empty()
    } else {
        exists|r1: Seq<char>, r2: Seq<char>|
            r == r1.add(r2) && ops_rel(t, alg, old, new, ops.drop_last(), r1) && changes_rel(
                t,
                alg.spec_changes(old, new, ops.last()),
                r2,
            )
    }
}

/// Whether the two texts end in the same character (or are both empty).
pub open spec fn spec_last_eq(o: Seq<char>, n: Seq<char>) -> bool {
    (o.len() == 0 && n.len() == 0) || (o.len() > 0 && n.len() > 0 && o.last() == n.last())
}

/// A trailing newline becomes marker-then-newline; anything else stays.
pub open spec fn spec_replace_nl(s: Seq<char>, m: Seq<char>) -> Seq<char> {
    if s.len() > 0 && s.last() == '\n' && m.len() > 0 {
        s.drop_last().add(m).push('\n')
    } else {
        s
    }
}

/// The engine the factory yields for an algorithm.
pub open spec fn engine_of(algorithm: Algorithm) -> DiffEngine {
    match algorithm {
        Algorithm::Similar => DiffEngine::Similar(SimilarDiff),
        Algorithm::Myers => DiffEngine::Myers(MyersDiff),
    }
}

/// The whole rendered diff: for some admissible trailing-newline marker,
/// the header followed by the rendering of every operation of the two
/// (possibly marker-rewritten) texts.
pub open spec fn render_rel<T: Theme>(
    t: &T,
    algorithm: Algorithm,
    old: Seq<char>,
    new: Seq<char>,
    out: Seq<char>,
) -> bool {
    exists|m: Seq<char>, hdr: Seq<char>, body: Seq<char>|
        marker_rel(t, m) && t.header_ok(hdr) && out == hdr.add(body) && {
            let o2 = if spec_last_eq(old, new) {
                old
            } else {
                spec_replace_nl(old, m)
            };
            let n2 = if spec_last_eq(old, new) {
                new
            } else {
                spec_replace_nl(new, m)
            };
            if o2.len() < usize::MAX && n2.len() < usize::MAX {
                ops_rel(
                    t,
                    &engine_of(algorithm),
                    o2,
                    n2,
                    engine_of(algorithm).spec_ops(o2, n2),
                    body,
                )
            } else {
                body == Seq::<char>::empty()
            }
        }
}

/// A theme whose hook predicates each admit a single result.  The
/// built-in colorless themes are such themes; the color themes are not,
/// since crossterm decides per escape sequence whether colors are on.
pub open spec fn theme_pins_output<T: Theme>(t: &T) -> bool {
    &&& forall|tag: ChangeTag, r1: Seq<char>, r2: Seq<char>|
        #![trigger prefix_rel(t, tag, r1), prefix_rel(t, tag, r2)]
        prefix_rel(t, tag, r1) && prefix_rel(t, tag, r2) ==> r1 == r2
    &&& forall|tag: ChangeTag, i: Seq<char>, r1: Seq<char>, r2: Seq<char>|
        #![trigger content_rel(t, tag, i, r1), content_rel(t, tag, i, r2)]
        content_rel(t, tag, i, r1) && content_rel(t, tag, i, r2) ==> r1 == r2
    &&& forall|tag: ChangeTag, i: Seq<char>, r1: Seq<char>, r2: Seq<char>|
        #![trigger highlight_rel(t, tag, i, r1), highlight_rel(t, tag, i, r2)]
        highlight_rel(t, tag, i, r1) && highlight_rel(t, tag, i, r2) ==> r1 == r2
    &&& forall|r1: Seq<char>, r2: Seq<char>|
        #![trigger line_end_rel(t, r1), line_end_rel(t, r2)]
        line_end_rel(t, r1) && line_end_rel(t, r2) ==> r1 == r2
    &&& forall|r1: Seq<char>, r2: Seq<char>|
        #![trigger marker_rel(t, r1), marker_rel(t, r2)]
        marker_rel(t, r1) && marker_rel(t, r2) ==> r1 == r2
    &&& forall|r1: Seq<char>, r2: Seq<char>|
        #![trigger t.header_ok(r1), t.header_ok(r2)]
        t.header_ok(r1) && t.header_ok(r2) ==> r1 == r2
}

proof fn lemma_piece_rel_functional<T: Theme>(
    t: &T,
    tag: ChangeTag,
    piece: (bool, Seq<char>),
    r1: Seq<char>,
    r2: Seq<char>,
)
    requires
        theme_pins_output(t),
        piece_rel(t, tag, piece, r1),
        piece_rel(t, tag, piece, r2),
    ensures
        r1 == r2,
{
    if piece.0 {
        let h1 = choose|h: Seq<char>| highlight_rel(t, tag, piece.1, h) && content_rel(t, tag, h, r1);
        let h2 = choose|h: Seq<char>| highlight_rel(t, tag, piece.1, h) && content_rel(t, tag, h, r2);
        assert(h1 == h2);
    }
}

proof fn lemma_pieces_rel_functional<T: Theme>(
    t: &T,
    tag: ChangeTag,
    values: Seq<(bool, Seq<char>)>,
    r1: Seq<char>,
    r2: Seq<char>,
)
    requires
        theme_pins_output(t),
        pieces_rel(t, tag, values, r1),
        pieces_rel(t, tag, values, r2),
    ensures
        r1 == r2,
    decreases values.len(),
{
    if values.len() > 0 {
        let (a1, b1) = choose|a: Seq<char>, b: Seq<char>|
            r1 == a.add(b) && pieces_rel(t, tag, values.drop_last(), a) && piece_rel(
                t,
                tag,
                values.last(),
                b,
            );
        let (a2, b2) = choose|a: Seq<char>, b: Seq<char>|
            r2 == a.add(b) && pieces_rel(t, tag, values.drop_last(), a) && piece_rel(
                t,
                tag,
                values.last(),
                b,
            );
        lemma_pieces_rel_functional(t, tag, values.drop_last(), a1, a2);
        lemma_piece_rel_functional(t, tag, values.last(), b1, b2);
    }
}

proof fn lemma_change_rel_functional<T: Theme>(t: &T, ch: ChangeData, r1: Seq<char>, r2: Seq<char>)
    requires
        theme_pins_output(t),
        change_rel(t, ch, r1),
        change_rel(t, ch, r2),
    ensures
        r1 == r2,
{
    let (p1, body1, e1) = choose|p: Seq<char>, body: Seq<char>, e: Seq<char>|
        r1 == p.add(body).add(e) && prefix_rel(t, ch.tag, p) && pieces_rel(t, ch.tag, ch.values, body)
            && (if ch.missing_newline {
            line_end_rel(t, e)
        } else {
            e == Seq::<char>::empty()
        });
    let (p2, body2, e2) = choose|p: Seq<char>, body: Seq<char>, e: Seq<char>|
        r2 == p.add(body).add(e) && prefix_rel(t, ch.tag, p) && pieces_rel(t, ch.tag, ch.values, body)
            && (if ch.missing_newline {
            line_end_rel(t, e)
        } else {
            e == Seq::<char>::empty()
        });
    assert(p1 == p2);
    lemma_pieces_rel_functional(t, ch.tag, ch.values, body1, body2);
    assert(e1 == e2);
}

proof fn lemma_changes_rel_functional<T: Theme>(
    t: &T,
    chs: Seq<ChangeData>,
    r1: Seq<char>,
    r2: Seq<char>,
)
    requires
        theme_pins_output(t),
        changes_rel(t, chs, r1),
        changes_rel(t, chs, r2),
    ensures
        r1 == r2,
    decreases chs.len(),
{
    if chs.len() > 0 {
        let (a1, b1) = choose|a: Seq<char>, b: Seq<char>|
            r1 == a.add(b) && changes_rel(t, chs.drop_last(), a) && change_rel(t, chs.last(), b);
        let (a2, b2) = choose|a: Seq<char>, b: Seq<char>|
            r2 == a.add(b) && changes_rel(t, chs.drop_last(), a) && change_rel(t, chs.last(), b);
        lemma_changes_rel_functional(t, chs.drop_last(), a1, a2);
        lemma_change_rel_functional(t, chs.last(), b1, b2);
    }
}

proof fn lemma_ops_rel_functional<T: Theme, A: DiffAlgorithm>(
    t: &T,
    alg: &A,
    old: Seq<char>,
    new: Seq<char>,
    ops: Seq<DiffOp>,
    r1: Seq<char>,
    r2: Seq<char>,
)
    requires
        theme_pins_output(t),
        ops_rel(t, alg, old, new, ops, r1),
        ops_rel(t, alg, old, new, ops, r2),
    ensures
        r1 == r2,
    decreases ops.len(),
{
    if ops.len() > 0 {
        let (a1, b1) = choose|a: Seq<char>, b: Seq<char>|
            r1 == a.add(b) && ops_rel(t, alg, old, new, ops.drop_last(), a) && changes_rel(
                t,
                alg.spec_changes(old, new, ops.last()),
                b,
            );
        let (a2, b2) = choose|a: Seq<char>, b: Seq<char>|
            r2 == a.add(b) && ops_rel(t, alg, old, new, ops.drop_last(), a) && changes_rel(
                t,
                alg.spec_changes(old, new, ops.last()),
                b,
            );
        lemma_ops_rel_functional(t, alg, old, new, ops.drop_last(), a1, a2);
        lemma_changes_rel_functional(t, alg.spec_changes(old, new, ops.last()), b1, b2);
    }
}

/// Rendering is a function of the inputs for any theme whose hooks pin
/// their results: two rendered outputs for the same texts, theme and
/// algorithm are byte-identical.  In particular, rendering the same
/// drawer twice, or entering through the default-algorithm entry point
/// rather than naming that algorithm, gives the same bytes under such a
/// theme.
pub proof fn lemma_render_deterministic<T: Theme>(
    t: &T,
    algorithm: Algorithm,
    old: Seq<char>,
    new: Seq<char>,
    out1: Seq<char>,
    out2: Seq<char>,
)
    requires
        theme_pins_output(t),
        render_rel(t, algorithm, old, new, out1),
        render_rel(t, algorithm, old, new, out2),
    ensures
        out1 == out2,
{
    let (m1, hdr1, body1) = choose|m: Seq<char>, hdr: Seq<char>, body: Seq<char>|
        marker_rel(t, m) && t.header_ok(hdr) && out1 == hdr.add(body) && {
            let o2 = if spec_last_eq(old, new) {
                old
            } else {
                spec_replace_nl(old, m)
            };
            let n2 = if spec_last_eq(old, new) {
                new
            } else {
                spec_replace_nl(new, m)
            };
            if o2.len() < usize::MAX && n2.len() < usize::MAX {
                ops_rel(t, &engine_of(algorithm), o2, n2, engine_of(algorithm).spec_ops(o2, n2), body)
            } else {
                body == Seq::<char>::empty()
            }
        };
    let (m2, hdr2, body2) = choose|m: Seq<char>, hdr: Seq<char>, body: Seq<char>|
        marker_rel(t, m) && t.header_ok(hdr) && out2 == hdr.add(body) && {
            let o2 = if spec_last_eq(old, new) {
                old
            } else {
                spec_replace_nl(old, m)
            };
            let n2 = if spec_last_eq(old, new) {
                new
            } else {
                spec_replace_nl(new, m)
            };
            if o2.len() < usize::MAX && n2.len() < usize::MAX {
                ops_rel(t, &engine_of(algorithm), o2, n2, engine_of(algorithm).spec_ops(o2, n2), body)
            } else {
                body == Seq::<char>::empty()
            }
        };
    assert(m1 == m2);
    assert(hdr1 == hdr2);
    let o2 = if spec_last_eq(old, new) {
        old
    } else {
        spec_replace_nl(old, m1)
    };
    let n2 = if spec_last_eq(old, new) {
        new
    } else {
        spec_replace_nl(new, m1)
    };
    if o2.len() < usize::MAX && n2.len() < usize::MAX {
        lemma_ops_rel_functional(
            t,
            &engine_of(algorithm),
            o2,
            n2,
            engine_of(algorithm).spec_ops(o2, n2),
            body1,
            body2,
        );
    }
}

/// The struct that draws the diff
///
/// Can use either the reference engine or the from-scratch
/// shortest-edit-script engine.
pub struct DrawDiff<'a, T: Theme> {
    /// The old text.
    pub old: &'a str,
    /// The new text.
    pub new: &'a str,
    /// The theme that styles the output.
    pub theme: &'a T,
    /// The engine that computes the diff.
    pub algorithm: Algorithm,
}

impl<'a, T: Theme> DrawDiff<'a, T> {
    /// Make a new instance of the diff drawer
    pub fn new(old: &'a str, new: &'a str, theme: &'a T) -> (r: DrawDiff<'a, T>)
        ensures
            r.old@ == old@,
            r.new@ == new@,
            r.theme == theme,
            r.algorithm == Algorithm::Similar,
    {
        DrawDiff { old, new, theme, algorithm: Algorithm::default() }
    }

    /// Make a new instance of the diff drawer with a specific algorithm
    pub fn with_algorithm(old: &'a str, new: &'a str, theme: &'a T, algorithm: Algorithm) -> (r:
        DrawDiff<'a, T>)
        ensures
            r.old@ == old@,
            r.new@ == new@,
            r.theme == theme,
            r.algorithm == algorithm,
    {
        DrawDiff { old, new, theme, algorithm }
    }

    fn highlight(&self, text: &str, tag: ChangeTag) -> (r: String)
        ensures
            highlight_rel(self.theme, tag, text@, r@),
    {
        match tag {
            ChangeTag::Equal => text.to_owned(),
            ChangeTag::Delete => self.theme.highlight_delete(text),
            ChangeTag::Insert => self.theme.highlight_insert(text),
        }
    }

    fn format_line(&self, line: &str, tag: ChangeTag) -> (r: String)
        ensures
            content_rel(self.theme, tag, line@, r@),
    {
        match tag {
            ChangeTag::Equal => self.theme.equal_content(line),
            ChangeTag::Delete => self.theme.delete_content(line),
            ChangeTag::Insert => self.theme.insert_line(line),
        }
    }

    fn prefix(&self, tag: ChangeTag) -> (r: String)
        ensures
            prefix_rel(self.theme, tag, r@),
    {
        match tag {
            ChangeTag::Equal => self.theme.equal_prefix(),
            ChangeTag::Delete => self.theme.delete_prefix(),
            ChangeTag::Insert => self.theme.insert_prefix(),
        }
    }

    fn replace_trailing_nl(&self, x: &str, marker: &str) -> (r: String)
        ensures
            r@ == spec_replace_nl(x@, marker@),
    {
        let n: usize = x.unicode_len();
        if n > 0 && x.get_char(n - 1) == '\n' && !marker.is_empty() {
            let mut r = x.substring_char(0, n - 1).to_owned();
            r.append(marker);
            r.append("\n");
            proof {
                reveal_strlit("\n");
                assert("\n"@ =~= seq!['\n']);
                assert(x@.subrange(0, n as int - 1) =~= x@.drop_last());
                assert(r@ =~= x@.drop_last().add(marker@).push('\n'));
            }
            r
        } else {
            x.to_owned()
        }
    }

    fn replace_trailing_if_needed(&self, old: &str, new: &str) -> (r: (String, String))
        ensures
            exists|m: Seq<char>|
                marker_rel(self.theme, m) && r.0@ == (if spec_last_eq(old@, new@) {
                    old@
                } else {
                    spec_replace_nl(old@, m)
                }) && r.1@ == (if spec_last_eq(old@, new@) {
                    new@
                } else {
                    spec_replace_nl(new@, m)
                }),
    {
        let on: usize = old.unicode_len();
        let nn: usize = new.unicode_len();
        let same_last: bool = if on == 0 && nn == 0 {
            true
        } else if on > 0 && nn > 0 {
            old.get_char(on - 1) == new.get_char(nn - 1)
        } else {
            false
        };
        if same_last {
            let r = (old.to_owned(), new.to_owned());
            proof {
                let m0 = "\u{240a}"@;
                assert(marker_rel(self.theme, m0) && r.0@ == old@ && r.1@ == new@);
            }
            r
        } else {
            let marker = self.theme.trailing_lf_marker();
            let r = (
                self.replace_trailing_nl(old, marker.as_str()),
                self.replace_trailing_nl(new, marker.as_str()),
            );
            proof {
                assert(marker_rel(self.theme, marker@) && r.0@ == spec_replace_nl(old@, marker@)
                    && r.1@ == spec_replace_nl(new@, marker@));
            }
            r
        }
    }

    fn render_pieces_into(&self, out: &mut String, tag: ChangeTag, values: &Vec<(bool, String)>)
        -> (delta: Ghost<Seq<char>>)
        ensures
            final(out)@ == old(out)@.add(delta@),
            pieces_rel(self.theme, tag, values.deep_view(), delta@),
    {
        let ghost vals = values.deep_view();
        let ghost mut acc: Seq<char> = Seq::empty();
        let ghost base = out@;
        let mut k: usize = 0;
        proof {
            assert(vals.take(0) =~= Seq::<(bool, Seq<char>)>::empty());
            assert(pieces_rel(self.theme, tag, vals.take(0), acc));
            assert(out@ =~= base.add(acc));
        }
        while k < values.len()
            invariant
                vals == values.deep_view(),
                k <= vals.len(),
                vals.len() == values@.len(),
                out@ == base.add(acc),
                pieces_rel(self.theme, tag, vals.take(k as int), acc),
            decreases vals.len() - k,
        {
            let highlighted: bool = values[k].0;
            let piece_str: String = values[k].1.clone();
            proof {
                assert(vals[k as int] == (values@[k as int].0, values@[k as int].1@));
                assert(piece_str@ == vals[k as int].1);
            }
            let formatted: String = if highlighted {
                let h = self.highlight(piece_str.as_str(), tag);
                let f = self.format_line(h.as_str(), tag);
                proof {
                    assert(piece_rel(self.theme, tag, vals[k as int], f@)) by {
                        assert(highlight_rel(self.theme, tag, vals[k as int].1, h@)
                            && content_rel(self.theme, tag, h@, f@));
                    }
                }
                f
            } else {
                let f = self.format_line(piece_str.as_str(), tag);
                proof {
                    assert(piece_rel(self.theme, tag, vals[k as int], f@));
                }
                f
            };
            out.append(formatted.as_str());
            proof {
                let acc2 = acc.add(formatted@);
                assert(vals.take(k as int + 1).drop_last() =~= vals.take(k as int));
                assert(vals.take(k as int + 1).last() == vals[k as int]);
                assert(pieces_rel(self.theme, tag, vals.take(k as int + 1), acc2));
                acc = acc2;
                assert(out@ =~= base.add(acc));
            }
            k = k + 1;
        }
        proof {
            assert(vals.take(vals.len() as int) =~= vals);
        }
        Ghost(acc)
    }

    fn render_change_into(&self, out: &mut String, change: &Change) -> (delta: Ghost<Seq<char>>)
        ensures
            final(out)@ == old(out)@.add(delta@),
            change_rel(self.theme, change@, delta@),
    {
        let ghost base = out@;
        let tag = change.tag();
        let p = self.prefix(tag);
        out.append(p.as_str());
        let pieces = self.render_pieces_into(out, tag, change.values());
        let ghost e: Seq<char>;
        if change.missing_newline() {
            let le = self.theme.line_end();
            out.append(le.as_str());
            proof {
                e = le@;
                assert(line_end_rel(self.theme, e));
            }
        } else {
            proof {
                e = Seq::empty();
            }
        }
        let ghost delta = p@.add(pieces@).add(e);
        proof {
            assert(out@ =~= base.add(delta));
            assert(change_rel(self.theme, change@, delta)) by {
                assert(prefix_rel(self.theme, change@.tag, p@) && pieces_rel(
                    self.theme,
                    change@.tag,
                    change@.values,
                    pieces@,
                ));
            }
        }
        Ghost(delta)
    }

    /// Renders the whole diff into a string: the theme's header, then one
    /// block per operation of the chosen engine.
    pub fn render(&self) -> (r: String)
        requires
            self.old@.len() < usize::MAX,
            self.new@.len() < usize::MAX,
        ensures
            render_rel(self.theme, self.algorithm, self.old@, self.new@, r@),
    {
        let (o2s, n2s) = self.replace_trailing_if_needed(self.old, self.new);
        let ghost m: Seq<char> = choose|m: Seq<char>|
            marker_rel(self.theme, m) && o2s@ == (if spec_last_eq(self.old@, self.new@) {
                self.old@
            } else {
                spec_replace_nl(self.old@, m)
            }) && n2s@ == (if spec_last_eq(self.old@, self.new@) {
                self.new@
            } else {
                spec_replace_nl(self.new@, m)
            });
        let mut out = self.theme.header();
        let ghost hdr = out@;
        let l2: usize = o2s.as_str().unicode_len();
        let l3: usize = n2s.as_str().unicode_len();
        if l2 == usize::MAX || l3 == usize::MAX {
            // A text this long cannot exist in memory; nothing to render.
            proof {
                assert(out@ =~= hdr.add(Seq::<char>::empty()));
                assert(render_rel(self.theme, self.algorithm, self.old@, self.new@, out@));
            }
            return out;
        }
        let engine = DiffAlgorithmFactory::create(self.algorithm);
        let ops = engine.ops(o2s.as_str(), n2s.as_str());
        let ghost opsv = ops@;
        let ghost mut body: Seq<char> = Seq::empty();
        let mut k: usize = 0;
        proof {
            assert(opsv.take(0) =~= Seq::<DiffOp>::empty());
            assert(ops_rel(self.theme, &engine, o2s@, n2s@, opsv.take(0), body));
            assert(out@ =~= hdr.add(body));
        }
        while k < ops.len()
            invariant
                self.old@.len() < usize::MAX,
                self.new@.len() < usize::MAX,
                o2s@.len() < usize::MAX,
                n2s@.len() < usize::MAX,
                opsv == ops@,
                k <= opsv.len(),
                engine == engine_of(self.algorithm),
                opsv == engine.spec_ops(o2s@, n2s@),
                out@ == hdr.add(body),
                ops_rel(self.theme, &engine, o2s@, n2s@, opsv.take(k as int), body),
            decreases opsv.len() - k,
        {
            let op = ops[k];
            let chs = engine.iter_inline_changes(o2s.as_str(), n2s.as_str(), &op);
            let ghost chd = changes_data(chs@);
            let ghost mut cacc: Seq<char> = Seq::empty();
            let ghost out_before = out@;
            let mut k2: usize = 0;
            proof {
                assert(chd.take(0) =~= Seq::<ChangeData>::empty());
                assert(changes_rel(self.theme, chd.take(0), cacc));
                assert(out@ =~= out_before.add(cacc));
            }
            while k2 < chs.len()
                invariant
                    chd == changes_data(chs@),
                    chd.len() == chs@.len(),
                    k2 <= chs@.len(),
                    out@ == out_before.add(cacc),
                    changes_rel(self.theme, chd.take(k2 as int), cacc),
                decreases chs@.len() - k2,
            {
                let delta = self.render_change_into(&mut out, &chs[k2]);
                proof {
                    assert(chd.take(k2 as int + 1).drop_last() =~= chd.take(k2 as int));
                    assert(chd.take(k2 as int + 1).last() == chd[k2 as int]);
                    assert(chd[k2 as int] == chs@[k2 as int]@);
                    let cacc2 = cacc.add(delta@);
                    assert(changes_rel(self.theme, chd.take(k2 as int + 1), cacc2));
                    cacc = cacc2;
                    assert(out@ =~= out_before.add(cacc));
                }
                k2 = k2 + 1;
            }
            proof {
                assert(chd.take(chs@.len() as int) =~= chd);
                assert(changes_rel(self.theme, engine.spec_changes(o2s@, n2s@, op), cacc));
                assert(opsv.take(k as int + 1).drop_last() =~= opsv.take(k as int));
                assert(opsv.take(k as int + 1).last() == opsv[k as int]);
                let body2 = body.add(cacc);
                assert(ops_rel(self.theme, &engine, o2s@, n2s@, opsv.take(k as int + 1), body2));
                body = body2;
                assert(out@ =~= hdr.add(body));
            }
            k = k + 1;
        }
        proof {
            assert(opsv.take(opsv.len() as int) =~= opsv);
            assert(ops_rel(self.theme, &engine, o2s@, n2s@, engine.spec_ops(o2s@, n2s@), body));
            assert(render_rel(self.theme, self.algorithm, self.old@, self.new@, out@));
        }
        out
    }
}

} // verus!
