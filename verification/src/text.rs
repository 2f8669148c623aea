//! Line models for the two diff engines.
//!
//! `spec_lines` describes how a text decomposes into lines the way
//! `str::lines` does it: pieces are cut at every `'\n'`, a `'\r'` directly
//! before the cut is removed, and a final empty piece (from a trailing
//! newline) is dropped.  `split_into_lines` computes that decomposition.
//!
//! `spec_sim_tokens` describes the tokenization the reference engine works
//! on: a token keeps its terminator, and a terminator is `"\r\n"`, `'\n'`,
//! or a bare `'\r'`.  `split_into_sim_tokens` computes it.

use vstd::prelude::*;

verus! {

/// The pieces of `s` cut at every newline character.  The newline itself
/// belongs to no piece; a text with `k` newlines has `k + 1` pieces.
pub open spec fn nl_pieces(s: Seq<char>) -> Seq<Seq<char>>
    decreases s.len(),
{
    if s.len() == 0 {
        seq![Seq::empty()]
    } else if s[0] == '\n' {
        seq![Seq::<char>::empty()].add(nl_pieces(s.drop_first()))
    } else {
        let rest = nl_pieces(s.drop_first());
        seq![seq![s[0]].add(rest[0])].add(rest.drop_first())
    }
}

pub proof fn lemma_nl_pieces_len(s: Seq<char>)
    ensures
        nl_pieces(s).len() >= 1,
    decreases s.len(),
{
    if s.len() > 0 {
        lemma_nl_pieces_len(s.drop_first());
    }
}

/// A line loses one carriage return directly before its newline.
pub open spec fn strip_cr(l: Seq<char>) -> Seq<char> {
    if l.len() > 0 && l.last() == '\r' {
        l.drop_last()
    } else {
        l
    }
}

/// The line decomposition of `s`, as `str::lines` yields it.
pub open spec fn spec_lines(s: Seq<char>) -> Seq<Seq<char>> {
    let pieces = nl_pieces(s);
    let done = pieces.drop_last().map_values(|l: Seq<char>| strip_cr(l));
    if pieces.last().len() == 0 {
        done
    } else {
        done.push(pieces.last())
    }
}

/// Appending one character extends the piece decomposition at its end.
pub proof fn lemma_nl_pieces_push(s: Seq<char>, c: char)
    ensures
        c == '\n' ==> nl_pieces(s.push(c)) == nl_pieces(s).push(Seq::<char>::empty()),
        c != '\n' ==> nl_pieces(s.push(c)) == nl_pieces(s).update(
            nl_pieces(s).len() - 1,
            nl_pieces(s).last().push(c),
        ),
    decreases s.len(),
{
    lemma_nl_pieces_len(s);
    if s.len() == 0 {
        if c == '\n' {
            assert(s.push(c)[0] == '\n');
            assert(s.push(c).drop_first() =~= s);
            assert(nl_pieces(s.push(c)) =~~= nl_pieces(s).push(Seq::<char>::empty()));
        } else {
            assert(s.push(c).drop_first() =~= s);
            assert(nl_pieces(s.push(c)) =~~= nl_pieces(s).update(
                nl_pieces(s).len() - 1,
                nl_pieces(s).last().push(c),
            ));
        }
    } else {
        let t = s.push(c);
        assert(t[0] == s[0]);
        assert(t.drop_first() =~= s.drop_first().push(c));
        lemma_nl_pieces_push(s.drop_first(), c);
        lemma_nl_pieces_len(s.drop_first());
        if c == '\n' {
            if s[0] == '\n' {
                assert(nl_pieces(t) =~~= nl_pieces(s).push(Seq::<char>::empty()));
            } else {
                let rest = nl_pieces(s.drop_first());
                let rest2 = nl_pieces(s.drop_first().push(c));
                assert(rest2 == rest.push(Seq::<char>::empty()));
                assert(rest2[0] == rest[0]);
                assert(rest2.drop_first() =~= rest.drop_first().push(Seq::<char>::empty()));
                assert(nl_pieces(t) =~~= nl_pieces(s).push(Seq::<char>::empty()));
            }
        } else {
            if s[0] == '\n' {
                let rest = nl_pieces(s.drop_first());
                let rest2 = nl_pieces(s.drop_first().push(c));
                assert(rest2 == rest.update(rest.len() - 1, rest.last().push(c)));
                assert(nl_pieces(t) =~~= nl_pieces(s).update(
                    nl_pieces(s).len() - 1,
                    nl_pieces(s).last().push(c),
                ));
            } else {
                let rest = nl_pieces(s.drop_first());
                let rest2 = nl_pieces(s.drop_first().push(c));
                assert(rest2 == rest.update(rest.len() - 1, rest.last().push(c)));
                if rest.len() == 1 {
                    assert(rest2[0] == rest[0].push(c));
                    assert(nl_pieces(t) =~~= nl_pieces(s).update(
                        nl_pieces(s).len() - 1,
                        nl_pieces(s).last().push(c),
                    ));
                } else {
                    assert(rest2[0] == rest[0]);
                    assert(rest2.drop_first() =~~= rest.drop_first().update(
                        rest.drop_first().len() - 1,
                        rest.drop_first().last().push(c),
                    ));
                    assert(nl_pieces(t) =~~= nl_pieces(s).update(
                        nl_pieces(s).len() - 1,
                        nl_pieces(s).last().push(c),
                    ));
                }
            }
        }
    }
}

/// Splits a text into its lines, the way `str::lines` does.
pub fn split_into_lines(s: &str) -> (r: Vec<String>)
    ensures
        r.deep_view() == spec_lines(s@),
{
    let n: usize = s.unicode_len();
    let mut r: Vec<String> = Vec::new();
    let mut start: usize = 0;
    let mut i: usize = 0;
    while i < n
        invariant
            n == s@.len(),
            0 <= start <= i <= n,
            nl_pieces(s@.take(i as int)).drop_last().map_values(|l: Seq<char>| strip_cr(l))
                == r.deep_view(),
            nl_pieces(s@.take(i as int)).last() == s@.subrange(start as int, i as int),
        decreases n - i,
    {
        let ghost pieces = nl_pieces(s@.take(i as int));
        proof {
            lemma_nl_pieces_len(pieces.last());
            lemma_nl_pieces_len(s@.take(i as int));
            assert(s@.take(i as int + 1) =~= s@.take(i as int).push(s@[i as int]));
            lemma_nl_pieces_push(s@.take(i as int), s@[i as int]);
        }
        let c = s.get_char(i);
        if c == '\n' {
            let ghost cur = s@.subrange(start as int, i as int);
            let line: String = if i > start && s.get_char(i - 1) == '\r' {
                let part = s.substring_char(start, i - 1);
                proof {
                    assert(cur.last() == '\r');
                    assert(strip_cr(cur) =~= s@.subrange(start as int, i as int - 1));
                }
                part.to_owned()
            } else {
                let part = s.substring_char(start, i);
                proof {
                    assert(strip_cr(cur) =~= cur);
                }
                part.to_owned()
            };
            let ghost old_r = r.deep_view();
            r.push(line);
            proof {
                let new_pieces = nl_pieces(s@.take(i as int + 1));
                assert(new_pieces == pieces.push(Seq::<char>::empty()));
                assert(new_pieces.drop_last() =~= pieces);
                assert(pieces =~= pieces.drop_last().push(pieces.last()));
                assert(r.deep_view() =~~= old_r.push(line@));
                assert(pieces.map_values(|l: Seq<char>| strip_cr(l)) =~~= pieces.drop_last()
                    .map_values(|l: Seq<char>| strip_cr(l)).push(strip_cr(pieces.last())));
                assert(new_pieces.drop_last().map_values(|l: Seq<char>| strip_cr(l))
                    == r.deep_view());
                assert(new_pieces.last() =~= s@.subrange(i as int + 1, i as int + 1));
            }
            start = i + 1;
        } else {
            proof {
                let new_pieces = nl_pieces(s@.take(i as int + 1));
                assert(new_pieces == pieces.update(pieces.len() - 1, pieces.last().push(c)));
                assert(new_pieces.drop_last() =~= pieces.drop_last());
                assert(new_pieces.last() == pieces.last().push(c));
                assert(new_pieces.last() =~= s@.subrange(start as int, i as int + 1));
            }
        }
        i = i + 1;
    }
    proof {
        assert(s@.take(n as int) =~= s@);
        lemma_nl_pieces_len(s@);
    }
    if start < n {
        let part = s.substring_char(start, n);
        r.push(part.to_owned());
        proof {
            let pieces = nl_pieces(s@);
            assert(pieces.last().len() > 0);
            assert(r.deep_view() =~~= pieces.drop_last().map_values(|l: Seq<char>| strip_cr(l))
                .push(pieces.last()));
        }
    } else {
        proof {
            let pieces = nl_pieces(s@);
            assert(pieces.last() =~= s@.subrange(start as int, n as int));
            assert(pieces.last().len() == 0);
        }
    }
    r
}

proof fn lemma_nl_pieces_count(s: Seq<char>)
    ensures
        nl_pieces(s).len() + nl_pieces(s).last().len() <= s.len() + 1,
    decreases s.len(),
{
    lemma_nl_pieces_len(s);
    if s.len() > 0 {
        lemma_nl_pieces_count(s.drop_first());
        lemma_nl_pieces_len(s.drop_first());
        if s[0] != '\n' {
            let rest = nl_pieces(s.drop_first());
            if rest.len() == 1 {
                assert(nl_pieces(s).last() == seq![s[0]].add(rest[0]));
            } else {
                assert(nl_pieces(s).last() == rest.last());
            }
        }
    }
}

/// A text has no more lines than characters.
pub proof fn lemma_spec_lines_count(s: Seq<char>)
    ensures
        spec_lines(s).len() <= s.len(),
{
    lemma_nl_pieces_count(s);
    lemma_nl_pieces_len(s);
}

/// True when `c` starts a line terminator.
pub open spec fn is_term_char(c: char) -> bool {
    c == '\n' || c == '\r'
}

/// The pieces of `s` cut after every line terminator, each piece keeping its
/// terminator.  A terminator is `"\r\n"`, `'\n'`, or a bare `'\r'`.
pub open spec fn sim_pieces(s: Seq<char>) -> Seq<Seq<char>>
    decreases s.len(),
{
    if s.len() == 0 {
        seq![Seq::empty()]
    } else if s[0] == '\n' {
        seq![seq!['\n']].add(sim_pieces(s.drop_first()))
    } else if s[0] == '\r' && s.len() >= 2 && s[1] == '\n' {
        seq![seq!['\r', '\n']].add(sim_pieces(s.skip(2)))
    } else if s[0] == '\r' {
        seq![seq!['\r']].add(sim_pieces(s.drop_first()))
    } else {
        let rest = sim_pieces(s.drop_first());
        seq![seq![s[0]].add(rest[0])].add(rest.drop_first())
    }
}

pub proof fn lemma_sim_pieces_len(s: Seq<char>)
    ensures
        sim_pieces(s).len() >= 1,
    decreases s.len(),
{
    if s.len() > 0 {
        if s[0] == '\r' && s.len() >= 2 && s[1] == '\n' {
            lemma_sim_pieces_len(s.skip(2));
        } else if s[0] != '\n' {
            lemma_sim_pieces_len(s.drop_first());
        }
    }
}

/// The tokens the reference engine diffs over: the pieces of `s`, without
/// the empty piece a trailing terminator leaves behind.
pub open spec fn spec_sim_tokens(s: Seq<char>) -> Seq<Seq<char>> {
    let pieces = sim_pieces(s);
    if pieces.last().len() == 0 {
        pieces.drop_last()
    } else {
        pieces
    }
}

/// A terminator-free text is a single piece.
pub proof fn lemma_sim_pieces_plain(x: Seq<char>)
    requires
        x.len() > 0,
        forall|k: int| 0 <= k < x.len() ==> !is_term_char(x[k]),
    ensures
        sim_pieces(x) == seq![x],
    decreases x.len(),
{
    assert(!is_term_char(x[0]));
    if x.len() == 1 {
        assert(x.drop_first().len() == 0);
        assert(sim_pieces(x.drop_first()) == seq![Seq::<char>::empty()]);
        assert(sim_pieces(x)[0] =~= x);
        assert(sim_pieces(x) =~= seq![x]);
    } else {
        lemma_sim_pieces_plain(x.drop_first());
        assert(sim_pieces(x)[0] =~= x);
        assert(sim_pieces(x) =~= seq![x]);
    }
}

/// A complete token (terminator-free content plus one terminator) splits off
/// the front of the piece decomposition.
pub proof fn lemma_sim_pieces_token(content: Seq<char>, term: Seq<char>, rest: Seq<char>)
    requires
        forall|k: int| 0 <= k < content.len() ==> !is_term_char(content[k]),
        term == seq!['\n'] || term == seq!['\r', '\n'] || (term == seq!['\r'] && (rest.len() == 0
            || rest[0] != '\n')),
    ensures
        sim_pieces(content.add(term).add(rest)) == seq![content.add(term)].add(sim_pieces(rest)),
    decreases content.len(),
{
    let t = content.add(term).add(rest);
    if content.len() == 0 {
        if term == seq!['\n'] {
            assert(t[0] == '\n');
            assert(t.drop_first() =~= rest);
            assert(sim_pieces(t) =~~= seq![content.add(term)].add(sim_pieces(rest)));
        } else if term == seq!['\r', '\n'] {
            assert(t[0] == '\r' && t.len() >= 2 && t[1] == '\n');
            assert(t.skip(2) =~= rest);
            assert(sim_pieces(t) =~~= seq![content.add(term)].add(sim_pieces(rest)));
        } else {
            assert(t[0] == '\r');
            assert(!(t.len() >= 2 && t[1] == '\n'));
            assert(t.drop_first() =~= rest);
            assert(sim_pieces(t) =~~= seq![content.add(term)].add(sim_pieces(rest)));
        }
    } else {
        assert(t[0] == content[0]);
        assert(!is_term_char(t[0]));
        assert(t.drop_first() =~= content.drop_first().add(term).add(rest));
        lemma_sim_pieces_token(content.drop_first(), term, rest);
        lemma_sim_pieces_len(rest);
        assert(sim_pieces(t) =~~= seq![content.add(term)].add(sim_pieces(rest)));
    }
}

/// Splits a text into reference-engine tokens, terminators kept.
pub fn split_into_sim_tokens(s: &str) -> (r: Vec<String>)
    ensures
        r.deep_view() == spec_sim_tokens(s@),
{
    let n: usize = s.unicode_len();
    let mut r: Vec<String> = Vec::new();
    let mut start: usize = 0;
    let mut i: usize = 0;
    proof {
        assert(s@.skip(0) =~= s@);
        assert(r.deep_view() =~~= Seq::<Seq<char>>::empty());
        assert(sim_pieces(s@) =~= r.deep_view().add(sim_pieces(s@.skip(0))));
    }
    while i < n
        invariant
            n == s@.len(),
            0 <= start <= i <= n,
            sim_pieces(s@) =~= r.deep_view().add(sim_pieces(s@.skip(start as int))),
            forall|k: int| start <= k < i ==> !is_term_char(s@[k]),
        decreases n - i,
    {
        let c = s.get_char(i);
        let ghost content = s@.subrange(start as int, i as int);
        if c == '\n' {
            let tok = s.substring_char(start, i + 1).to_owned();
            let ghost old_r = r.deep_view();
            r.push(tok);
            proof {
                assert(s@.skip(start as int) =~= content.add(seq!['\n']).add(
                    s@.skip(i as int + 1),
                ));
                lemma_sim_pieces_token(content, seq!['\n'], s@.skip(i as int + 1));
                assert(tok@ =~= content.add(seq!['\n']));
                assert(r.deep_view() =~~= old_r.push(tok@));
                assert(sim_pieces(s@) =~= r.deep_view().add(sim_pieces(s@.skip(i as int + 1))));
            }
            start = i + 1;
            i = i + 1;
        } else if c == '\r' {
            if i + 1 < n && s.get_char(i + 1) == '\n' {
                let tok = s.substring_char(start, i + 2).to_owned();
                let ghost old_r = r.deep_view();
                r.push(tok);
                proof {
                    assert(s@.skip(start as int) =~= content.add(seq!['\r', '\n']).add(
                        s@.skip(i as int + 2),
                    ));
                    lemma_sim_pieces_token(content, seq!['\r', '\n'], s@.skip(i as int + 2));
                    assert(tok@ =~= content.add(seq!['\r', '\n']));
                    assert(r.deep_view() =~~= old_r.push(tok@));
                    assert(sim_pieces(s@) =~= r.deep_view().add(
                        sim_pieces(s@.skip(i as int + 2)),
                    ));
                }
                start = i + 2;
                i = i + 2;
            } else {
                let tok = s.substring_char(start, i + 1).to_owned();
                let ghost old_r = r.deep_view();
                r.push(tok);
                proof {
                    let rest = s@.skip(i as int + 1);
                    assert(s@.skip(start as int) =~= content.add(seq!['\r']).add(rest));
                    assert(rest.len() == 0 || rest[0] != '\n');
                    lemma_sim_pieces_token(content, seq!['\r'], rest);
                    assert(tok@ =~= content.add(seq!['\r']));
                    assert(r.deep_view() =~~= old_r.push(tok@));
                    assert(sim_pieces(s@) =~= r.deep_view().add(sim_pieces(rest)));
                }
                start = i + 1;
                i = i + 1;
            }
        } else {
            i = i + 1;
        }
    }
    if start < n {
        let tok = s.substring_char(start, n).to_owned();
        let ghost old_r = r.deep_view();
        r.push(tok);
        proof {
            let tail = s@.skip(start as int);
            assert(tail =~= s@.subrange(start as int, n as int));
            assert(forall|k: int| 0 <= k < tail.len() ==> !is_term_char(tail[k]));
            lemma_sim_pieces_plain(tail);
            assert(r.deep_view() =~~= old_r.push(tok@));
            assert(sim_pieces(s@) =~= r.deep_view());
            lemma_sim_pieces_len(s@);
            assert(sim_pieces(s@).last() == tok@);
            assert(spec_sim_tokens(s@) == r.deep_view());
        }
    } else {
        proof {
            assert(s@.skip(start as int).len() == 0);
            assert(sim_pieces(s@) =~= r.deep_view().add(seq![Seq::<char>::empty()]));
            lemma_sim_pieces_len(s@);
            assert(sim_pieces(s@).last().len() == 0);
            assert(spec_sim_tokens(s@) =~= r.deep_view());
        }
    }
    r
}

} // verus!
