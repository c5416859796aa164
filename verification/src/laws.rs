//! What holds of the engine as a whole: what a search finds, and the laws
//! of quantifiers, sequences and character classes.

use crate::correctness::{
    all_star_safe, lemma_accepts_empty, lemma_accepts_marker_free, lemma_chain_wf, lemma_disjoint,
    lemma_thompson_complete, lemma_thompson_sound, lemma_thompson_wf,
};
use crate::size::lemma_driver_count;
use crate::grammar::lemma_quantified_text;
use crate::grep::{augmented, driver_pattern, search, text_fits};
use crate::label::Sym;
use crate::language::{lemma_atom_language, lemma_followed_by_language};
use crate::nfa::StateId;
use crate::parser::{finish, parse_pattern, parse_siblings};
use crate::pattern::{star_of, Ast, SPECIAL_MARKER};
use vstd::prelude::*;

verus! {

/// Whether `p` matches some stretch of `s`.
pub open spec fn occurs(p: Ast, s: Seq<char>) -> bool {
    exists|i: int, j: int| 0 <= i <= j <= s.len() && p.matches(#[trigger] s.subrange(i, j))
}

/// Any word is a repetition of single characters.
pub proof fn lemma_any_star(s: Seq<char>)
    ensures
        Ast::KleeneStar(Box::new(Ast::AnyChar)).matches(s),
    decreases s.len(),
{
    if s.len() > 0 {
        lemma_any_star(s.subrange(1, s.len() as int));
        assert(Ast::AnyChar.matches(s.subrange(0, 1)));
        assert(Ast::AnyChar.language()(s.subrange(0, 1)));
    }
}

/// A list of one pattern matches what the pattern matches.
pub proof fn lemma_matches_single(q: Ast, s: Seq<char>)
    ensures
        Ast::matches_all(seq![q], s) <==> q.matches(s),
{
    let ps = seq![q];
    assert(ps.drop_last() =~= Seq::<Ast>::empty());
    assert(ps.last() == q);
    if q.matches(s) {
        assert(s.subrange(0, 0).len() == 0);
        assert(s.subrange(0, s.len() as int) =~= s);
        assert(Ast::matches_all(ps.drop_last(), s.subrange(0, 0)) && ps.last().matches(
            s.subrange(0, s.len() as int),
        ));
    }
    if Ast::matches_all(ps, s) {
        let k = choose|k: int|
            0 <= k <= s.len() && Ast::matches_all(ps.drop_last(), #[trigger] s.subrange(0, k))
                && ps.last().matches(s.subrange(k, s.len() as int));
        assert(k == 0);
        assert(s.subrange(0, s.len() as int) =~= s);
    }
}

/// A list with one more pattern at its end matches the words that split
/// into a front part for the list and a rest for the pattern.
pub proof fn lemma_matches_push(ps: Seq<Ast>, q: Ast, s: Seq<char>)
    ensures
        Ast::matches_all(ps.push(q), s) <==> exists|k: int|
            0 <= k <= s.len() && Ast::matches_all(ps, #[trigger] s.subrange(0, k)) && q.matches(
                s.subrange(k, s.len() as int),
            ),
{
    assert(ps.push(q).drop_last() =~= ps);
    assert(ps.push(q).last() == q);
}

/// Two lists in a row match the words that split into a front part for
/// the first list and a rest for the second.
pub proof fn lemma_matches_concat(ps: Seq<Ast>, qs: Seq<Ast>, s: Seq<char>)
    ensures
        Ast::matches_all(ps + qs, s) <==> exists|k: int|
            0 <= k <= s.len() && Ast::matches_all(ps, #[trigger] s.subrange(0, k))
                && Ast::matches_all(qs, s.subrange(k, s.len() as int)),
    decreases qs.len(),
{
    if qs.len() == 0 {
        assert(ps + qs =~= ps);
        if Ast::matches_all(ps, s) {
            assert(s.subrange(0, s.len() as int) =~= s);
            assert(s.subrange(s.len() as int, s.len() as int).len() == 0);
            assert(Ast::matches_all(ps, s.subrange(0, s.len() as int)) && Ast::matches_all(
                qs,
                s.subrange(s.len() as int, s.len() as int),
            ));
        }
        if exists|k: int|
            0 <= k <= s.len() && Ast::matches_all(ps, #[trigger] s.subrange(0, k))
                && Ast::matches_all(qs, s.subrange(k, s.len() as int)) {
            let k = choose|k: int|
                0 <= k <= s.len() && Ast::matches_all(ps, #[trigger] s.subrange(0, k))
                    && Ast::matches_all(qs, s.subrange(k, s.len() as int));
            assert(k == s.len());
            assert(s.subrange(0, s.len() as int) =~= s);
        }
    } else {
        let front = qs.drop_last();
        let q = qs.last();
        assert(ps + qs =~= (ps + front).push(q));
        assert(qs =~= front.push(q));
        lemma_matches_push(ps + front, q, s);
        if Ast::matches_all(ps + qs, s) {
            let m = choose|m: int|
                0 <= m <= s.len() && Ast::matches_all(ps + front, #[trigger] s.subrange(0, m))
                    && q.matches(s.subrange(m, s.len() as int));
            let head = s.subrange(0, m);
            lemma_matches_concat(ps, front, head);
            let k = choose|k: int|
                0 <= k <= head.len() && Ast::matches_all(ps, #[trigger] head.subrange(0, k))
                    && Ast::matches_all(front, head.subrange(k, head.len() as int));
            let tail = s.subrange(k, s.len() as int);
            assert(head.subrange(0, k) =~= s.subrange(0, k));
            assert(tail.subrange(0, m - k) =~= head.subrange(k, head.len() as int));
            assert(tail.subrange(m - k, tail.len() as int) =~= s.subrange(m, s.len() as int));
            lemma_matches_push(front, q, tail);
            assert(Ast::matches_all(front, tail.subrange(0, m - k)) && q.matches(
                tail.subrange(m - k, tail.len() as int),
            ));
            assert(Ast::matches_all(ps, s.subrange(0, k)) && Ast::matches_all(qs, tail));
        }
        if exists|k: int|
            0 <= k <= s.len() && Ast::matches_all(ps, #[trigger] s.subrange(0, k))
                && Ast::matches_all(qs, s.subrange(k, s.len() as int)) {
            let k = choose|k: int|
                0 <= k <= s.len() && Ast::matches_all(ps, #[trigger] s.subrange(0, k))
                    && Ast::matches_all(qs, s.subrange(k, s.len() as int));
            let tail = s.subrange(k, s.len() as int);
            lemma_matches_push(front, q, tail);
            let d = choose|d: int|
                0 <= d <= tail.len() && Ast::matches_all(front, #[trigger] tail.subrange(0, d))
                    && q.matches(tail.subrange(d, tail.len() as int));
            let m = k + d;
            let head = s.subrange(0, m);
            assert(head.subrange(0, k) =~= s.subrange(0, k));
            assert(head.subrange(k, head.len() as int) =~= tail.subrange(0, d));
            assert(s.subrange(m, s.len() as int) =~= tail.subrange(d, tail.len() as int));
            lemma_matches_concat(ps, front, head);
            assert(Ast::matches_all(ps, head.subrange(0, k)) && Ast::matches_all(
                front,
                head.subrange(k, head.len() as int),
            ));
            assert(Ast::matches_all(ps + front, s.subrange(0, m)) && q.matches(
                s.subrange(m, s.len() as int),
            ));
        }
    }
}

/// A finished list that is not empty stands for a pattern that matches
/// what the list matches, and that the automaton is exact for where it is
/// so for each pattern of the list.
pub proof fn lemma_finish(ps: Seq<Ast>)
    requires
        ps.len() > 0,
    ensures
        forall|w: Seq<char>| #[trigger] finish(ps).matches(w) <==> Ast::matches_all(ps, w),
        finish(ps).star_safe() <==> all_star_safe(ps),
{
    assert forall|w: Seq<char>| #[trigger] finish(ps).matches(w) <==> Ast::matches_all(ps, w) by {
        if ps.len() == 1 {
            assert(ps =~= seq![ps[0]]);
            lemma_matches_single(ps[0], w);
        }
    }
    if ps.len() == 1 {
        if all_star_safe(ps) {
            assert(ps[0].star_safe());
        }
    } else {
        let whole = Ast::Sequence(ps);
        assert(finish(ps) == whole);
        if whole.star_safe() {
            assert forall|i: int| 0 <= i < ps.len() implies (#[trigger] ps[i]).star_safe() by {
                assert(whole->Sequence_0[i].star_safe());
            }
        }
    }
}

/// The pattern compiled for a search matches a word exactly when the
/// user's pattern matches some stretch of it.
pub proof fn lemma_driver_matches(p: Ast, s: Seq<char>)
    ensures
        driver_pattern(p).matches(s) <==> occurs(p, s),
{
    let any = Ast::KleeneStar(Box::new(Ast::AnyChar));
    let ps = seq![any, p, any];
    assert(ps =~= seq![any].push(p).push(any));
    lemma_matches_push(seq![any].push(p), any, s);
    if driver_pattern(p).matches(s) {
        let j = choose|j: int|
            0 <= j <= s.len() && Ast::matches_all(seq![any].push(p), #[trigger] s.subrange(0, j))
                && any.matches(s.subrange(j, s.len() as int));
        let head = s.subrange(0, j);
        lemma_matches_push(seq![any], p, head);
        let i = choose|i: int|
            0 <= i <= head.len() && Ast::matches_all(seq![any], #[trigger] head.subrange(0, i))
                && p.matches(head.subrange(i, head.len() as int));
        assert(head.subrange(i, head.len() as int) =~= s.subrange(i, j));
    }
    if occurs(p, s) {
        let (i, j) = choose|i: int, j: int|
            0 <= i <= j <= s.len() && p.matches(#[trigger] s.subrange(i, j));
        let head = s.subrange(0, j);
        lemma_any_star(head.subrange(0, i));
        lemma_matches_single(any, head.subrange(0, i));
        assert(head.subrange(i, head.len() as int) =~= s.subrange(i, j));
        lemma_matches_push(seq![any], p, head);
        assert(Ast::matches_all(seq![any], head.subrange(0, i)) && p.matches(
            head.subrange(i, head.len() as int),
        ));
        lemma_any_star(s.subrange(j, s.len() as int));
        assert(Ast::matches_all(seq![any].push(p), s.subrange(0, j)) && any.matches(
            s.subrange(j, s.len() as int),
        ));
    }
}

/// The automaton of "anything" accepts every word.
pub proof fn lemma_any_accepts(k: StateId, w: Seq<char>)
    requires
        k + 2 <= usize::MAX,
    ensures
        Ast::KleeneStar(Box::new(Ast::AnyChar)).thompson(k).accepts(w),
{
    let any = Ast::KleeneStar(Box::new(Ast::AnyChar));
    assert(any.state_count() == 2) by {
        assert(Ast::AnyChar.state_count() == 2);
    }
    lemma_any_star(w);
    lemma_thompson_complete(any, k, w);
}

/// **What a search finds, for every pattern.** A search succeeds exactly
/// when the automaton of the pattern, as it stands within the automaton of
/// the search, accepts some stretch of the line between its two markers.
pub proof fn lemma_search_compiled(p: Ast, input: Seq<char>)
    requires
        driver_pattern(p).state_count() <= usize::MAX,
    ensures
        search(p, input) <==> exists|i: int, j: int|
            0 <= i <= j <= augmented(input).len() && p.thompson(2).accepts(
                #[trigger] augmented(input).subrange(i, j),
            ),
{
    let any = Ast::KleeneStar(Box::new(Ast::AnyChar));
    let s = augmented(input);
    let ps = seq![any, p, any];
    let two = ps.drop_last();
    let one = two.drop_last();
    let k3 = (2 + p.state_count()) as StateId;
    lemma_driver_count(p);
    assert(any.state_count() == 2) by {
        assert(Ast::AnyChar.state_count() == 2);
    }
    assert(two =~= seq![any, p]);
    assert(one =~= seq![any]);
    assert(one.drop_last() =~= Seq::<Ast>::empty());
    assert(Ast::chain_count(one.drop_last()) == 0);
    assert(Ast::chain_count(one) == 2);
    assert(Ast::chain_count(two) == 2 + p.state_count());
    let a1 = any.thompson(0);
    let pa = p.thompson(2);
    let a3 = any.thompson(k3);
    let first = a1.followed_by(pa);
    assert(Ast::thompson_chain(one, 0) == a1);
    assert(Ast::thompson_chain(two, 0) == first);
    assert(ps.last() == any && two.last() == p);
    assert(Ast::thompson_chain(ps, 0) == first.followed_by(a3));
    assert(driver_pattern(p).thompson(0) == first.followed_by(a3));
    lemma_chain_wf(one, 0);
    lemma_chain_wf(two, 0);
    lemma_thompson_wf(p, 2);
    lemma_thompson_wf(any, k3);
    lemma_disjoint(a1, 0, 2, pa, k3 as int);
    lemma_disjoint(first, 0, k3 as int, a3, k3 + 2);
    lemma_followed_by_language(first, a3, s);
    if search(p, input) {
        let j = choose|j: int|
            0 <= j <= s.len() && first.accepts(#[trigger] s.subrange(0, j)) && a3.accepts(
                s.subrange(j, s.len() as int),
            );
        let head = s.subrange(0, j);
        lemma_followed_by_language(a1, pa, head);
        let i = choose|i: int|
            0 <= i <= head.len() && a1.accepts(#[trigger] head.subrange(0, i)) && pa.accepts(
                head.subrange(i, head.len() as int),
            );
        assert(head.subrange(i, head.len() as int) =~= s.subrange(i, j));
    }
    if exists|i: int, j: int|
        0 <= i <= j <= s.len() && p.thompson(2).accepts(#[trigger] s.subrange(i, j)) {
        let (i, j) = choose|i: int, j: int|
            0 <= i <= j <= s.len() && p.thompson(2).accepts(#[trigger] s.subrange(i, j));
        let head = s.subrange(0, j);
        lemma_any_accepts(0, head.subrange(0, i));
        assert(head.subrange(i, head.len() as int) =~= s.subrange(i, j));
        lemma_followed_by_language(a1, pa, head);
        assert(a1.accepts(head.subrange(0, i)) && pa.accepts(head.subrange(i, head.len() as int)));
        lemma_any_accepts(k3, s.subrange(j, s.len() as int));
        assert(first.accepts(s.subrange(0, j)) && a3.accepts(s.subrange(j, s.len() as int)));
    }
}

/// **What a search finds.** A search succeeds whenever the pattern matches
/// some stretch of the line between its two markers. Where every pattern
/// under a `*` neither begins nor ends with a quantified pattern, it
/// succeeds in no other case.
pub proof fn lemma_search(p: Ast, input: Seq<char>)
    requires
        driver_pattern(p).state_count() <= usize::MAX,
    ensures
        occurs(p, augmented(input)) ==> search(p, input),
        p.star_safe() ==> (search(p, input) <==> occurs(p, augmented(input))),
{
    let s = augmented(input);
    lemma_driver_count(p);
    lemma_search_compiled(p, input);
    if occurs(p, s) {
        let (i, j) = choose|i: int, j: int|
            0 <= i <= j <= s.len() && p.matches(#[trigger] s.subrange(i, j));
        lemma_thompson_complete(p, 2, s.subrange(i, j));
    }
    if p.star_safe() && search(p, input) {
        let (i, j) = choose|i: int, j: int|
            0 <= i <= j <= s.len() && p.thompson(2).accepts(#[trigger] s.subrange(i, j));
        lemma_thompson_sound(p, 2, s.subrange(i, j));
    }
}

/// A word whose two parts hold no `c` holds no `c`.
pub proof fn lemma_parts_avoid(w: Seq<char>, k: int, c: char)
    requires
        0 <= k <= w.len(),
        !w.subrange(0, k).contains(c),
        !w.subrange(k, w.len() as int).contains(c),
    ensures
        !w.contains(c),
{
    if w.contains(c) {
        let i = choose|i: int| 0 <= i < w.len() && w[i] == c;
        if i < k {
            assert(w.subrange(0, k)[i] == c);
        } else {
            assert(w.subrange(k, w.len() as int)[i - k] == c);
        }
    }
}

/// A repetition of words without `c` is a word without `c`.
pub proof fn lemma_star_avoids(lang: spec_fn(Seq<char>) -> bool, c: char, w: Seq<char>)
    requires
        forall|u: Seq<char>| #[trigger] lang(u) ==> !u.contains(c),
        star_of(lang, w),
    ensures
        !w.contains(c),
    decreases w.len(),
{
    if w.len() > 0 {
        let k = choose|k: int|
            0 < k <= w.len() && lang(#[trigger] w.subrange(0, k)) && star_of(
                lang,
                w.subrange(k, w.len() as int),
            );
        lemma_star_avoids(lang, c, w.subrange(k, w.len() as int));
        lemma_parts_avoid(w, k, c);
    }
}

/// A pattern without anchors that consumes the marker nowhere matches only
/// words without the marker.
pub proof fn lemma_marker_free(p: Ast, w: Seq<char>)
    requires
        p.marker_free(),
        p.matches(w),
    ensures
        !w.contains(SPECIAL_MARKER),
    decreases p, 0nat,
{
    match p {
        Ast::OneOrMore(q) => {
            let k = choose|k: int|
                0 <= k <= w.len() && q.matches(#[trigger] w.subrange(0, k)) && star_of(
                    q.language(),
                    w.subrange(k, w.len() as int),
                );
            lemma_marker_free(*q, w.subrange(0, k));
            assert forall|u: Seq<char>| #[trigger] q.language()(u) implies !u.contains(
                SPECIAL_MARKER,
            ) by {
                lemma_marker_free(*q, u);
            }
            lemma_star_avoids(q.language(), SPECIAL_MARKER, w.subrange(k, w.len() as int));
            lemma_parts_avoid(w, k, SPECIAL_MARKER);
        },
        Ast::KleeneStar(q) => {
            assert forall|u: Seq<char>| #[trigger] q.language()(u) implies !u.contains(
                SPECIAL_MARKER,
            ) by {
                lemma_marker_free(*q, u);
            }
            lemma_star_avoids(q.language(), SPECIAL_MARKER, w);
        },
        Ast::Sequence(ps) => {
            lemma_all_marker_free(ps, w);
        },
        Ast::Or(l, r) => {
            if l.matches(w) {
                lemma_marker_free(*l, w);
            } else {
                lemma_marker_free(*r, w);
            }
        },
        _ => {
            if w.contains(SPECIAL_MARKER) {
                let i = choose|i: int| 0 <= i < w.len() && w[i] == SPECIAL_MARKER;
            }
        },
    }
}

/// A list of such patterns matches only words without the marker.
pub proof fn lemma_all_marker_free(ps: Seq<Ast>, w: Seq<char>)
    requires
        forall|i: int| 0 <= i < ps.len() ==> (#[trigger] ps[i]).marker_free(),
        Ast::matches_all(ps, w),
    ensures
        !w.contains(SPECIAL_MARKER),
    decreases ps, 1nat,
{
    if ps.len() == 0 {
        if w.contains(SPECIAL_MARKER) {
            let i = choose|i: int| 0 <= i < w.len() && w[i] == SPECIAL_MARKER;
        }
    } else {
        let front = ps.drop_last();
        let k = choose|k: int|
            0 <= k <= w.len() && Ast::matches_all(front, #[trigger] w.subrange(0, k))
                && ps.last().matches(w.subrange(k, w.len() as int));
        assert forall|i: int| 0 <= i < front.len() implies (#[trigger] front[i]).marker_free() by {
            assert(front[i] == ps[i]);
        }
        lemma_all_marker_free(front, w.subrange(0, k));
        lemma_marker_free(ps.last(), w.subrange(k, w.len() as int));
        lemma_parts_avoid(w, k, SPECIAL_MARKER);
    }
}

/// **Optional patterns.** An optional pattern matches the empty word.
pub proof fn lemma_optional_matches_empty(p: Ast)
    ensures
        Ast::optional(p).matches(Seq::empty()),
{
    assert(Ast::matches_all(Seq::empty(), Seq::empty()));
    assert(Ast::Sequence(Seq::empty()).matches(Seq::empty()));
}

/// **Optional patterns.** A search with an optional pattern succeeds on
/// every line, the empty one included.
pub proof fn lemma_optional_found(p: Ast, input: Seq<char>)
    requires
        driver_pattern(Ast::optional(p)).state_count() <= usize::MAX,
    ensures
        search(Ast::optional(p), input),
{
    let s = augmented(input);
    lemma_optional_matches_empty(p);
    assert(s.subrange(0, 0) =~= Seq::<char>::empty());
    assert(Ast::optional(p).matches(s.subrange(0, 0)));
    lemma_search(Ast::optional(p), input);
}

/// **Repetition.** A starred pattern matches the empty word.
pub proof fn lemma_star_matches_empty(p: Ast)
    ensures
        Ast::KleeneStar(Box::new(p)).matches(Seq::empty()),
{
}

/// **Repetition.** A search with a starred pattern succeeds on every line,
/// the empty one included.
pub proof fn lemma_star_found(p: Ast, input: Seq<char>)
    requires
        driver_pattern(Ast::KleeneStar(Box::new(p))).state_count() <= usize::MAX,
    ensures
        search(Ast::KleeneStar(Box::new(p)), input),
{
    let s = augmented(input);
    assert(s.subrange(0, 0) =~= Seq::<char>::empty());
    assert(Ast::KleeneStar(Box::new(p)).matches(s.subrange(0, 0)));
    lemma_search(Ast::KleeneStar(Box::new(p)), input);
}

/// **Repetition.** One or more times a pattern matches the empty word only
/// where the pattern itself does.
pub proof fn lemma_plus_matches_empty(p: Ast)
    ensures
        Ast::OneOrMore(Box::new(p)).matches(Seq::empty()) <==> p.matches(Seq::empty()),
{
    let e = Seq::<char>::empty();
    if p.matches(e) {
        assert(e.subrange(0, 0) =~= e);
        assert(p.matches(e.subrange(0, 0)) && star_of(p.language(), e.subrange(0, 0)));
    }
    if Ast::OneOrMore(Box::new(p)).matches(e) {
        let k = choose|k: int|
            0 <= k <= e.len() && p.matches(#[trigger] e.subrange(0, k)) && star_of(
                p.language(),
                e.subrange(k, e.len() as int),
            );
        assert(e.subrange(0, k) =~= e);
    }
}

/// The stretches of the empty line between its markers: nothing, one
/// marker, or both.
pub proof fn lemma_stretch_of_markers(i: int, j: int)
    requires
        0 <= i <= j <= 2,
    ensures
        ({
            let u = augmented(Seq::empty()).subrange(i, j);
            u == Seq::<char>::empty() || u == seq![SPECIAL_MARKER] || u == seq![
                SPECIAL_MARKER,
                SPECIAL_MARKER,
            ]
        }),
{
    let u = augmented(Seq::empty()).subrange(i, j);
    if j - i == 0 {
        assert(u =~= Seq::<char>::empty());
    } else if j - i == 1 {
        assert(u =~= seq![SPECIAL_MARKER]);
    } else {
        assert(u =~= seq![SPECIAL_MARKER, SPECIAL_MARKER]);
    }
}

/// **Repetition.** A search for one or more times a pattern fails on the
/// empty line, where the pattern does not match the empty word and either
/// consumes the marker nowhere, or is one that the automaton is exact for
/// and matches neither one marker nor two.
pub proof fn lemma_plus_not_found_in_empty(p: Ast)
    requires
        driver_pattern(Ast::OneOrMore(Box::new(p))).state_count() <= usize::MAX,
        !p.matches(Seq::empty()),
        p.marker_free() || (p.star_safe() && !p.matches(seq![SPECIAL_MARKER]) && !p.matches(
            seq![SPECIAL_MARKER, SPECIAL_MARKER],
        )),
    ensures
        !search(Ast::OneOrMore(Box::new(p)), Seq::empty()),
{
    let plus = Ast::OneOrMore(Box::new(p));
    let s = augmented(Seq::empty());
    lemma_driver_count(plus);
    lemma_plus_matches_empty(p);
    if search(plus, Seq::empty()) {
        if p.marker_free() {
            lemma_search_compiled(plus, Seq::empty());
            let (i, j) = choose|i: int, j: int|
                0 <= i <= j <= s.len() && plus.thompson(2).accepts(#[trigger] s.subrange(i, j));
            let u = s.subrange(i, j);
            lemma_accepts_marker_free(plus, 2, u);
            if u.len() > 0 {
                assert(u[0] == SPECIAL_MARKER);
            }
            assert(u =~= Seq::<char>::empty());
            lemma_accepts_empty(plus, 2);
        } else {
            lemma_search(plus, Seq::empty());
            let (i, j) = choose|i: int, j: int|
                0 <= i <= j <= s.len() && plus.matches(#[trigger] s.subrange(i, j));
            let u = s.subrange(i, j);
            let k = choose|k: int|
                0 <= k <= u.len() && p.matches(#[trigger] u.subrange(0, k)) && star_of(
                    p.language(),
                    u.subrange(k, u.len() as int),
                );
            assert(u.subrange(0, k) =~= s.subrange(i, i + k));
            lemma_stretch_of_markers(i, i + k);
        }
    }
}

/// **Optional and starred pattern texts.** For a text `P`
/// that is a single token, a search with the text `P?` or `P*` succeeds on
/// every line, the empty one included.
pub proof fn lemma_optional_and_star_text(text: Seq<char>, c: char, input: Seq<char>)
    requires
        c == '*' || c == '?',
        parse_siblings(text, 0, Seq::empty()) matches Ok(ps) && ps.len() == 1,
        text_fits(text.push(c)),
    ensures
        parse_pattern(text.push(c)) matches Ok(p) && search(p, input),
{
    let p = parse_siblings(text, 0, Seq::empty()).unwrap()[0];
    lemma_quantified_text(text, c);
    if c == '*' {
        lemma_star_found(p, input);
    } else {
        lemma_optional_found(p, input);
    }
}

/// **Repeated pattern texts.** For a text `P` that is a single token whose
/// pattern does not match the empty word and either consumes the marker
/// nowhere, or is one that the automaton is exact for and matches neither
/// one marker nor two, a search with the text `P+` fails on the empty line.
pub proof fn lemma_plus_text(text: Seq<char>)
    requires
        parse_siblings(text, 0, Seq::empty()) matches Ok(ps) && ps.len() == 1 && !ps[0].matches(
            Seq::empty(),
        ) && (ps[0].marker_free() || (ps[0].star_safe() && !ps[0].matches(seq![SPECIAL_MARKER])
            && !ps[0].matches(seq![SPECIAL_MARKER, SPECIAL_MARKER]))),
        text_fits(text.push('+')),
    ensures
        parse_pattern(text.push('+')) matches Ok(p) && !search(p, Seq::empty()),
{
    let p = parse_siblings(text, 0, Seq::empty()).unwrap()[0];
    lemma_quantified_text(text, '+');
    lemma_plus_not_found_in_empty(p);
}

/// **Concatenation.** Two patterns in a row match the words that split into a
/// front part for the first and a rest for the second.
pub proof fn lemma_sequence_matches(a: Ast, b: Ast, w: Seq<char>)
    ensures
        Ast::Sequence(seq![a, b]).matches(w) <==> exists|k: int|
            0 <= k <= w.len() && a.matches(#[trigger] w.subrange(0, k)) && b.matches(
                w.subrange(k, w.len() as int),
            ),
{
    assert(seq![a, b] =~= seq![a].push(b));
    lemma_matches_push(seq![a], b, w);
    assert forall|k: int| 0 <= k <= w.len() implies (Ast::matches_all(
        seq![a],
        #[trigger] w.subrange(0, k),
    ) <==> a.matches(w.subrange(0, k))) by {
        lemma_matches_single(a, w.subrange(0, k));
    }
}

/// **Concatenation.** The automaton of two patterns in a row accepts the
/// words that split into a front part that the automaton of the first
/// accepts and a rest that the automaton of the second accepts.
pub proof fn lemma_sequence_accepts(a: Ast, b: Ast, k: StateId, w: Seq<char>)
    requires
        k + a.state_count() + b.state_count() <= usize::MAX,
    ensures
        Ast::Sequence(seq![a, b]).thompson(k).accepts(w) <==> exists|j: int|
            0 <= j <= w.len() && a.thompson(k).accepts(#[trigger] w.subrange(0, j)) && b.thompson(
                (k + a.state_count()) as StateId,
            ).accepts(w.subrange(j, w.len() as int)),
{
    let ps = seq![a, b];
    let front = ps.drop_last();
    assert(front =~= seq![a]);
    assert(front.drop_last() =~= Seq::<Ast>::empty());
    assert(Ast::chain_count(front.drop_last()) == 0);
    assert(Ast::chain_count(front) == a.state_count());
    assert(Ast::thompson_chain(front, k) == a.thompson(k));
    let mid = (k + a.state_count()) as StateId;
    assert(Ast::thompson_chain(ps, k) == a.thompson(k).followed_by(b.thompson(mid)));
    lemma_thompson_wf(a, k);
    lemma_thompson_wf(b, mid);
    lemma_disjoint(
        a.thompson(k),
        k as int,
        mid as int,
        b.thompson(mid),
        mid + b.state_count(),
    );
    lemma_followed_by_language(a.thompson(k), b.thompson(mid), w);
}

/// **Negated classes.** A class matches a character exactly when
/// its negation does not.
pub proof fn lemma_class_matches(set: Seq<char>, c: char)
    ensures
        Ast::AnyCharIn(set).matches(seq![c]) <==> !Ast::AnyCharNotIn(set).matches(seq![c]),
{
}

/// **Negated classes.** The automaton of a class accepts a
/// character exactly when the automaton of its negation does not.
pub proof fn lemma_class_accepts(set: Seq<char>, c: char, k: StateId, m: StateId)
    requires
        k + 2 <= usize::MAX,
        m + 2 <= usize::MAX,
    ensures
        Ast::AnyCharIn(set).thompson(k).accepts(seq![c]) <==> !Ast::AnyCharNotIn(set).thompson(
            m,
        ).accepts(seq![c]),
{
    lemma_atom_language(Sym::AnyCharIn(set), k, seq![c]);
    lemma_atom_language(Sym::AnyCharNotIn(set), m, seq![c]);
}

} // verus!
