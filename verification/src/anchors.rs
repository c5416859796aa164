//! Anchors: a search with `^P`, `P$` or `^P$` finds what `P` matches at the
//! start, at the end, or over the whole of the line.

use crate::correctness::all_star_safe;
use crate::grammar::{
    lemma_caret_text, lemma_concat_text, lemma_siblings_before_dollar, lemma_siblings_nonempty,
};
use crate::grep::{augmented, driver_pattern, search, text_fits};
use crate::laws::{
    lemma_finish, lemma_marker_free, lemma_matches_concat, lemma_matches_push,
    lemma_matches_single, lemma_search, occurs,
};
use crate::parser::{finish, parse_pattern, parse_siblings};
use crate::pattern::{Ast, SPECIAL_MARKER};
use vstd::prelude::*;

verus! {

/// An anchor matches the word that is the marker alone.
pub proof fn lemma_anchor_word(u: Seq<char>)
    ensures
        Ast::Start.matches(u) <==> u == seq![SPECIAL_MARKER],
        Ast::End.matches(u) <==> u == seq![SPECIAL_MARKER],
{
    if u.len() == 1 && u[0] == SPECIAL_MARKER {
        assert(u =~= seq![SPECIAL_MARKER]);
    }
}

/// Where the line holds no marker, the line between markers holds the
/// marker at its two ends only, and the line in between.
pub proof fn lemma_augmented(input: Seq<char>)
    requires
        !input.contains(SPECIAL_MARKER),
    ensures
        augmented(input).len() == input.len() + 2,
        forall|x: int|
            0 <= x < input.len() + 2 ==> (#[trigger] augmented(input)[x] == SPECIAL_MARKER <==> x
                == 0 || x == input.len() + 1),
        forall|x: int| 1 <= x <= input.len() ==> #[trigger] augmented(input)[x] == input[x - 1],
{
    let s = augmented(input);
    assert forall|x: int| 0 <= x < input.len() + 2 implies (#[trigger] s[x] == SPECIAL_MARKER <==> x
        == 0 || x == input.len() + 1) by {
        if 1 <= x <= input.len() {
            assert(s[x] == input[x - 1]);
            assert(input.contains(input[x - 1]));
        }
    }
}

/// A pattern without anchors that consumes the marker nowhere matches no
/// word that holds the marker: not the line with the marker before or
/// behind it, and neither one marker nor two.
pub proof fn lemma_marker_free_rejects(p: Ast, input: Seq<char>)
    requires
        p.marker_free(),
    ensures
        !p.matches(input.push(SPECIAL_MARKER)),
        !p.matches(seq![SPECIAL_MARKER] + input),
        !p.matches(seq![SPECIAL_MARKER]),
        !p.matches(seq![SPECIAL_MARKER, SPECIAL_MARKER]),
{
    let behind = input.push(SPECIAL_MARKER);
    let before = seq![SPECIAL_MARKER] + input;
    assert(behind[input.len() as int] == SPECIAL_MARKER);
    assert(before[0] == SPECIAL_MARKER);
    assert(seq![SPECIAL_MARKER][0] == SPECIAL_MARKER);
    assert(seq![SPECIAL_MARKER, SPECIAL_MARKER][0] == SPECIAL_MARKER);
    if p.matches(behind) {
        lemma_marker_free(p, behind);
    }
    if p.matches(before) {
        lemma_marker_free(p, before);
    }
    if p.matches(seq![SPECIAL_MARKER]) {
        lemma_marker_free(p, seq![SPECIAL_MARKER]);
    }
    if p.matches(seq![SPECIAL_MARKER, SPECIAL_MARKER]) {
        lemma_marker_free(p, seq![SPECIAL_MARKER, SPECIAL_MARKER]);
    }
}

/// The pattern `^` followed by the patterns of a list.
pub open spec fn anchored_start(ps: Seq<Ast>) -> Ast {
    Ast::Sequence(seq![Ast::Start] + ps)
}

/// The patterns of a list followed by `$`.
pub open spec fn anchored_end(ps: Seq<Ast>) -> Ast {
    Ast::Sequence(ps.push(Ast::End))
}

/// The patterns of a list between `^` and `$`.
pub open spec fn anchored_both(ps: Seq<Ast>) -> Ast {
    Ast::Sequence((seq![Ast::Start] + ps).push(Ast::End))
}

/// **Anchor at the start.** A search with a pattern anchored at the
/// start succeeds exactly when the pattern matches a front part of the
/// line: for a pattern that the automaton is exact for and that does not
/// match the line with the marker behind it, and a line that holds no
/// marker.
pub proof fn lemma_start_anchor(ps: Seq<Ast>, input: Seq<char>)
    requires
        driver_pattern(anchored_start(ps)).state_count() <= usize::MAX,
        all_star_safe(ps),
        !Ast::matches_all(ps, input.push(SPECIAL_MARKER)),
        !input.contains(SPECIAL_MARKER),
    ensures
        search(anchored_start(ps), input) <==> exists|k: int|
            0 <= k <= input.len() && Ast::matches_all(ps, #[trigger] input.subrange(0, k)),
{
    let a = anchored_start(ps);
    let all = seq![Ast::Start] + ps;
    let s = augmented(input);
    let n = input.len() as int;
    assert forall|i: int| 0 <= i < all.len() implies (#[trigger] all[i]).star_safe() by {
        if i > 0 {
            assert(all[i] == ps[i - 1]);
        }
    }
    lemma_search(a, input);
    lemma_augmented(input);
    if occurs(a, s) {
        let (i, j) = choose|i: int, j: int|
            0 <= i <= j <= s.len() && a.matches(#[trigger] s.subrange(i, j));
        let v = s.subrange(i, j);
        lemma_matches_concat(seq![Ast::Start], ps, v);
        let k = choose|k: int|
            0 <= k <= v.len() && Ast::matches_all(seq![Ast::Start], #[trigger] v.subrange(0, k))
                && Ast::matches_all(ps, v.subrange(k, v.len() as int));
        lemma_matches_single(Ast::Start, v.subrange(0, k));
        lemma_anchor_word(v.subrange(0, k));
        assert(k == 1);
        assert(v.subrange(0, k)[0] == s[i]);
        let rest = v.subrange(1, v.len() as int);
        if i == 0 {
            if j == n + 2 {
                assert(rest =~= input.push(SPECIAL_MARKER));
            }
            assert(rest =~= input.subrange(0, j - 1));
        } else {
            assert(rest =~= input.subrange(0, 0));
        }
    }
    if exists|k: int| 0 <= k <= input.len() && Ast::matches_all(ps, #[trigger] input.subrange(0, k)) {
        let k = choose|k: int|
            0 <= k <= input.len() && Ast::matches_all(ps, #[trigger] input.subrange(0, k));
        let v = s.subrange(0, k + 1);
        assert(v.subrange(0, 1) =~= seq![SPECIAL_MARKER]);
        assert(v.subrange(1, v.len() as int) =~= input.subrange(0, k));
        lemma_anchor_word(v.subrange(0, 1));
        lemma_matches_single(Ast::Start, v.subrange(0, 1));
        lemma_matches_concat(seq![Ast::Start], ps, v);
        assert(Ast::matches_all(seq![Ast::Start], v.subrange(0, 1)) && Ast::matches_all(
            ps,
            v.subrange(1, v.len() as int),
        ));
        assert(a.matches(s.subrange(0, k + 1)));
    }
}

/// **Anchor at the end.** A search with a pattern anchored at the end
/// succeeds exactly when the pattern matches a back part of the line: for
/// a pattern that the automaton is exact for and that does not match the
/// line with the marker before it, and a line that holds no marker.
pub proof fn lemma_end_anchor(ps: Seq<Ast>, input: Seq<char>)
    requires
        driver_pattern(anchored_end(ps)).state_count() <= usize::MAX,
        all_star_safe(ps),
        !Ast::matches_all(ps, seq![SPECIAL_MARKER] + input),
        !input.contains(SPECIAL_MARKER),
    ensures
        search(anchored_end(ps), input) <==> exists|k: int|
            0 <= k <= input.len() && Ast::matches_all(
                ps,
                #[trigger] input.subrange(k, input.len() as int),
            ),
{
    let a = anchored_end(ps);
    let all = ps.push(Ast::End);
    let s = augmented(input);
    let n = input.len() as int;
    assert forall|i: int| 0 <= i < all.len() implies (#[trigger] all[i]).star_safe() by {
        if i < ps.len() {
            assert(all[i] == ps[i]);
        }
    }
    lemma_search(a, input);
    lemma_augmented(input);
    if occurs(a, s) {
        let (i, j) = choose|i: int, j: int|
            0 <= i <= j <= s.len() && a.matches(#[trigger] s.subrange(i, j));
        let v = s.subrange(i, j);
        lemma_matches_push(ps, Ast::End, v);
        let m = choose|m: int|
            0 <= m <= v.len() && Ast::matches_all(ps, #[trigger] v.subrange(0, m))
                && Ast::End.matches(v.subrange(m, v.len() as int));
        lemma_anchor_word(v.subrange(m, v.len() as int));
        assert(m == v.len() - 1);
        assert(v.subrange(m, v.len() as int)[0] == s[j - 1]);
        let front = v.subrange(0, m);
        if j - 1 == n + 1 {
            if i == 0 {
                assert(front =~= seq![SPECIAL_MARKER] + input);
            }
            assert(front =~= input.subrange(i - 1, n));
        } else {
            assert(front =~= input.subrange(n, n));
        }
    }
    if exists|k: int|
        0 <= k <= input.len() && Ast::matches_all(
            ps,
            #[trigger] input.subrange(k, input.len() as int),
        ) {
        let k = choose|k: int|
            0 <= k <= input.len() && Ast::matches_all(
                ps,
                #[trigger] input.subrange(k, input.len() as int),
            );
        let v = s.subrange(k + 1, n + 2);
        let m = v.len() - 1;
        assert(v.subrange(m, v.len() as int) =~= seq![SPECIAL_MARKER]);
        assert(v.subrange(0, m) =~= input.subrange(k, n));
        lemma_anchor_word(v.subrange(m, v.len() as int));
        lemma_matches_push(ps, Ast::End, v);
        assert(Ast::matches_all(ps, v.subrange(0, m)) && Ast::End.matches(
            v.subrange(m, v.len() as int),
        ));
        assert(a.matches(s.subrange(k + 1, n + 2)));
    }
}

/// **Anchors at both ends.** A search with a pattern anchored at both
/// ends succeeds exactly when the pattern matches the whole line: for a
/// pattern that the automaton is exact for, and a line that holds no marker.
pub proof fn lemma_both_anchors(ps: Seq<Ast>, input: Seq<char>)
    requires
        driver_pattern(anchored_both(ps)).state_count() <= usize::MAX,
        all_star_safe(ps),
        !input.contains(SPECIAL_MARKER),
    ensures
        search(anchored_both(ps), input) <==> Ast::matches_all(ps, input),
{
    let a = anchored_both(ps);
    let opened = seq![Ast::Start] + ps;
    let all = opened.push(Ast::End);
    let s = augmented(input);
    let n = input.len() as int;
    assert forall|i: int| 0 <= i < all.len() implies (#[trigger] all[i]).star_safe() by {
        if 0 < i <= ps.len() {
            assert(all[i] == ps[i - 1]);
        }
    }
    lemma_search(a, input);
    lemma_augmented(input);
    if occurs(a, s) {
        let (i, j) = choose|i: int, j: int|
            0 <= i <= j <= s.len() && a.matches(#[trigger] s.subrange(i, j));
        let v = s.subrange(i, j);
        lemma_matches_push(opened, Ast::End, v);
        let m = choose|m: int|
            0 <= m <= v.len() && Ast::matches_all(opened, #[trigger] v.subrange(0, m))
                && Ast::End.matches(v.subrange(m, v.len() as int));
        lemma_anchor_word(v.subrange(m, v.len() as int));
        assert(m == v.len() - 1);
        assert(v.subrange(m, v.len() as int)[0] == s[j - 1]);
        let head = v.subrange(0, m);
        lemma_matches_concat(seq![Ast::Start], ps, head);
        let k = choose|k: int|
            0 <= k <= head.len() && Ast::matches_all(seq![Ast::Start], #[trigger] head.subrange(0, k))
                && Ast::matches_all(ps, head.subrange(k, head.len() as int));
        lemma_matches_single(Ast::Start, head.subrange(0, k));
        lemma_anchor_word(head.subrange(0, k));
        assert(k == 1);
        assert(head.subrange(0, k)[0] == s[i]);
        assert(i == 0 && j == n + 2);
        assert(head.subrange(1, head.len() as int) =~= input);
    }
    if Ast::matches_all(ps, input) {
        let v = s.subrange(0, n + 2);
        let head = v.subrange(0, n + 1);
        assert(head.subrange(0, 1) =~= seq![SPECIAL_MARKER]);
        assert(head.subrange(1, head.len() as int) =~= input);
        lemma_anchor_word(head.subrange(0, 1));
        lemma_matches_single(Ast::Start, head.subrange(0, 1));
        lemma_matches_concat(seq![Ast::Start], ps, head);
        assert(Ast::matches_all(seq![Ast::Start], head.subrange(0, 1)) && Ast::matches_all(
            ps,
            head.subrange(1, head.len() as int),
        ));
        assert(v.subrange(n + 1, v.len() as int) =~= seq![SPECIAL_MARKER]);
        lemma_anchor_word(v.subrange(n + 1, v.len() as int));
        lemma_matches_push(opened, Ast::End, v);
        assert(Ast::matches_all(opened, v.subrange(0, n + 1)) && Ast::End.matches(
            v.subrange(n + 1, v.len() as int),
        ));
        assert(a.matches(s.subrange(0, n + 2)));
    }
}

/// **Anchor at the start, for pattern texts.** Let the text `P` have a
/// pattern that the automaton is exact for and that does not match the
/// line with the marker behind it, and let the line hold no marker. A
/// search with the text `^P` then succeeds exactly when the pattern of `P`
/// matches a front part of the line.
pub proof fn lemma_start_anchor_text(text: Seq<char>, input: Seq<char>)
    requires
        text.len() > 0,
        parse_pattern(text) matches Ok(p) && p.star_safe() && !p.matches(
            input.push(SPECIAL_MARKER),
        ),
        text_fits(seq!['^'] + text),
        !input.contains(SPECIAL_MARKER),
    ensures
        parse_pattern(seq!['^'] + text) matches Ok(anchored) && (search(anchored, input)
            <==> exists|k: int|
            0 <= k <= input.len() && parse_pattern(text).unwrap().matches(
                #[trigger] input.subrange(0, k),
            )),
{
    let none = Seq::<Ast>::empty();
    let ps = parse_siblings(text, 0, none).unwrap();
    lemma_siblings_nonempty(text, 0, none);
    lemma_finish(ps);
    lemma_caret_text(text);
    assert(finish(seq![Ast::Start] + ps) == anchored_start(ps));
    lemma_start_anchor(ps, input);
}

/// **Anchor at the end, for pattern texts.** Let the text `P` have a
/// pattern that the automaton is exact for and that does not match the
/// line with the marker before it, and let the line hold no marker. A
/// search with the text `P$` then succeeds exactly when the pattern of `P`
/// matches a back part of the line.
pub proof fn lemma_end_anchor_text(text: Seq<char>, input: Seq<char>)
    requires
        text.len() > 0,
        parse_pattern(text) matches Ok(p) && p.star_safe() && !p.matches(
            seq![SPECIAL_MARKER] + input,
        ),
        text_fits(text.push('$')),
        !input.contains(SPECIAL_MARKER),
    ensures
        parse_pattern(text.push('$')) matches Ok(anchored) && (search(anchored, input)
            <==> exists|k: int|
            0 <= k <= input.len() && parse_pattern(text).unwrap().matches(
                #[trigger] input.subrange(k, input.len() as int),
            )),
{
    let none = Seq::<Ast>::empty();
    let ps = parse_siblings(text, 0, none).unwrap();
    lemma_siblings_nonempty(text, 0, none);
    lemma_finish(ps);
    lemma_siblings_before_dollar(text, 0, none);
    assert(finish(ps.push(Ast::End)) == anchored_end(ps));
    lemma_end_anchor(ps, input);
}

/// **Anchors at both ends, for pattern texts.** A search with the text
/// `^P$` succeeds exactly when the pattern of `P` matches the whole line.
pub proof fn lemma_both_anchors_text(text: Seq<char>, input: Seq<char>)
    requires
        text.len() > 0,
        parse_pattern(text) matches Ok(p) && p.star_safe(),
        text_fits((seq!['^'] + text).push('$')),
        !input.contains(SPECIAL_MARKER),
    ensures
        parse_pattern((seq!['^'] + text).push('$')) matches Ok(anchored) && (search(
            anchored,
            input,
        ) <==> parse_pattern(text).unwrap().matches(input)),
{
    let none = Seq::<Ast>::empty();
    let ps = parse_siblings(text, 0, none).unwrap();
    lemma_siblings_nonempty(text, 0, none);
    lemma_finish(ps);
    lemma_caret_text(text);
    lemma_siblings_before_dollar(seq!['^'] + text, 0, none);
    assert(finish((seq![Ast::Start] + ps).push(Ast::End)) == anchored_both(ps));
    lemma_both_anchors(ps, input);
}


/// **Concatenation, for pattern texts.** Two texts in a row, each of which
/// has a pattern of its own, have a pattern that matches exactly the words
/// that split into a front part for the pattern of the first and a rest
/// for the pattern of the second. The automaton is exact for it where it
/// is so for both.
pub proof fn lemma_concat_matches_text(first: Seq<char>, second: Seq<char>, w: Seq<char>)
    requires
        first.len() > 0,
        second.len() > 0,
        parse_pattern(first) is Ok,
        parse_pattern(second) is Ok,
    ensures
        parse_pattern(first + second) matches Ok(p) && (p.matches(w) <==> exists|k: int|
            0 <= k <= w.len() && parse_pattern(first).unwrap().matches(
                #[trigger] w.subrange(0, k),
            ) && parse_pattern(second).unwrap().matches(w.subrange(k, w.len() as int))) && (
        parse_pattern(first).unwrap().star_safe() && parse_pattern(second).unwrap().star_safe()
            ==> p.star_safe()),
{
    let none = Seq::<Ast>::empty();
    let ps = parse_siblings(first, 0, none).unwrap();
    let qs = parse_siblings(second, 0, none).unwrap();
    lemma_siblings_nonempty(first, 0, none);
    lemma_siblings_nonempty(second, 0, none);
    lemma_concat_text(first, second);
    lemma_finish(ps);
    lemma_finish(qs);
    lemma_finish(ps + qs);
    lemma_matches_concat(ps, qs, w);
    if all_star_safe(ps) && all_star_safe(qs) {
        assert forall|i: int| 0 <= i < (ps + qs).len() implies (#[trigger] (ps + qs)[i]).star_safe() by {
            if i < ps.len() {
                assert((ps + qs)[i] == ps[i]);
            } else {
                assert((ps + qs)[i] == qs[i - ps.len()]);
            }
        }
    }
}

/// **Concatenation, for searches.** Let the texts `A` and `B` have patterns
/// that the automaton is exact for, and let the line hold no marker. A
/// search with the text `^AB$` then succeeds exactly when the line splits
/// into a front part that the pattern of `A` matches and a rest that the
/// pattern of `B` matches.
pub proof fn lemma_concat_search_text(first: Seq<char>, second: Seq<char>, input: Seq<char>)
    requires
        first.len() > 0,
        second.len() > 0,
        parse_pattern(first) matches Ok(a) && a.star_safe(),
        parse_pattern(second) matches Ok(b) && b.star_safe(),
        text_fits((seq!['^'] + (first + second)).push('$')),
        !input.contains(SPECIAL_MARKER),
    ensures
        parse_pattern((seq!['^'] + (first + second)).push('$')) matches Ok(p) && (search(p, input)
            <==> exists|k: int|
            0 <= k <= input.len() && parse_pattern(first).unwrap().matches(
                #[trigger] input.subrange(0, k),
            ) && parse_pattern(second).unwrap().matches(
                input.subrange(k, input.len() as int),
            )),
{
    lemma_concat_matches_text(first, second, input);
    lemma_both_anchors_text(first + second, input);
}

} // verus!
