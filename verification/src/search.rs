use crate::text::{block_run, byte_len, lemma_byte_len_concat, lemma_byte_len_prefix, lemma_byte_len_step, width_of, BLOCK};
use vstd::prelude::*;

verus! {

/// `term` stands in `text` at the character position `at`.
pub open spec fn occurs_at(text: Seq<char>, term: Seq<char>, at: int) -> bool {
    0 <= at && at + term.len() <= text.len() && text.subrange(at, at + term.len()) == term
}

/// `term` stands somewhere in `text`. The empty term stands in every text.
pub open spec fn contains_term(text: Seq<char>, term: Seq<char>) -> bool {
    exists|at: int| occurs_at(text, term, at)
}

/// `text` from position `at` on, with every occurrence of a non-empty `term`
/// replaced by as many blocks as the term has bytes. Occurrences are taken
/// from left to right, and the search goes on behind each one.
pub open spec fn mask_from(text: Seq<char>, term: Seq<char>, at: int) -> Seq<char>
    decreases text.len() - at,
{
    if at < 0 || at >= text.len() {
        Seq::empty()
    } else if term.len() > 0 && occurs_at(text, term, at) {
        block_run(byte_len(term)) + mask_from(text, term, at + term.len())
    } else {
        seq![text[at]] + mask_from(text, term, at + 1)
    }
}

/// `text` with every occurrence of `term` blocked out.
pub open spec fn mask_term(text: Seq<char>, term: Seq<char>) -> Seq<char> {
    mask_from(text, term, 0)
}

/// What one term of a blocklist makes of `text`.
pub open spec fn force_term(text: Seq<char>, term: Seq<char>) -> Seq<char> {
    if contains_term(text, term) {
        mask_term(text, term)
    } else {
        text
    }
}

/// What the terms of a blocklist make of `text`, applied one after the
/// other, each to what the one before it left.
pub open spec fn force_terms(text: Seq<char>, terms: Seq<Seq<char>>) -> Seq<char>
    decreases terms.len(),
{
    if terms.len() == 0 {
        text
    } else {
        force_terms(force_term(text, terms[0]), terms.drop_first())
    }
}

/// Some term of the blocklist stands in the text that the terms before it
/// left.
pub open spec fn any_term_hits(text: Seq<char>, terms: Seq<Seq<char>>) -> bool
    decreases terms.len(),
{
    if terms.len() == 0 {
        false
    } else {
        contains_term(text, terms[0]) || any_term_hits(
            force_term(text, terms[0]),
            terms.drop_first(),
        )
    }
}

/// The bytes that `term` covers where it stands in `text` at the character
/// position `at`: from the byte offset of that position, as many bytes as
/// the term has.
pub open spec fn span_at(text: Seq<char>, term: Seq<char>, at: int) -> (int, int) {
    (byte_len(text.take(at)) as int, (byte_len(text.take(at)) + byte_len(term)) as int)
}

/// The byte spans of all occurrences of `term` in `text` at or behind the
/// character position `at`, in ascending order of position. Every occurrence
/// has its span, also one that overlaps another; the empty term occurs once
/// before every character and once at the end.
pub open spec fn spans_from(text: Seq<char>, term: Seq<char>, at: int) -> Seq<(int, int)>
    decreases text.len() + 1 - at,
{
    if at < 0 || at + term.len() > text.len() {
        Seq::empty()
    } else if occurs_at(text, term, at) {
        seq![span_at(text, term, at)] + spans_from(text, term, at + 1)
    } else {
        spans_from(text, term, at + 1)
    }
}

/// The byte spans of all occurrences of `term` in `text`.
pub open spec fn term_spans(text: Seq<char>, term: Seq<char>) -> Seq<(int, int)> {
    spans_from(text, term, 0)
}

/// `span` is the span of an occurrence of `term` in `text` at or behind the
/// character position `from`.
pub open spec fn spans_occurrence(
    text: Seq<char>,
    term: Seq<char>,
    from: int,
    span: (int, int),
) -> bool {
    exists|at: int|
        from <= at && #[trigger] occurs_at(text, term, at) && span == span_at(text, term, at)
}

/// From a position on, the spans are those of the occurrences at or behind
/// it.
proof fn lemma_spans_from_occurrences(text: Seq<char>, term: Seq<char>, from: int)
    requires
        0 <= from,
    ensures
        forall|at: int|
            from <= at && #[trigger] occurs_at(text, term, at) ==> spans_from(
                text,
                term,
                from,
            ).contains(span_at(text, term, at)),
        forall|i: int|
            0 <= i < spans_from(text, term, from).len() ==> spans_occurrence(
                text,
                term,
                from,
                #[trigger] spans_from(text, term, from)[i],
            ),
    decreases text.len() + 1 - from,
{
    let spans = spans_from(text, term, from);
    if from + term.len() <= text.len() {
        lemma_spans_from_occurrences(text, term, from + 1);
        let rest = spans_from(text, term, from + 1);
        let here = occurs_at(text, term, from);
        let shift: int = if here {
            1
        } else {
            0
        };
        assert(forall|i: int| 0 <= i < rest.len() ==> spans[i + shift] == rest[i]);
        assert forall|at: int| from <= at && #[trigger] occurs_at(text, term, at) implies spans.contains(
            span_at(text, term, at),
        ) by {
            if at == from {
                assert(spans[0] == span_at(text, term, at));
            } else {
                let found = choose|i: int| 0 <= i < rest.len() && rest[i] == span_at(text, term, at);
                assert(spans[found + shift] == span_at(text, term, at));
            }
        }
        assert forall|i: int| 0 <= i < spans.len() implies spans_occurrence(
            text,
            term,
            from,
            #[trigger] spans[i],
        ) by {
            if here && i == 0 {
                assert(occurs_at(text, term, from));
            } else {
                assert(spans[i] == rest[i - shift]);
                assert(spans_occurrence(text, term, from + 1, rest[i - shift]));
                let at = choose|at: int|
                    from + 1 <= at && #[trigger] occurs_at(text, term, at) && rest[i - shift]
                        == span_at(text, term, at);
                assert(occurs_at(text, term, at));
            }
        }
    }
}

/// The spans of a term are those of its occurrences: every position at which
/// the term stands in the text has its span, whether or not the occurrence
/// overlaps another, and there is no other span.
pub proof fn lemma_every_occurrence_has_its_span(text: Seq<char>, term: Seq<char>)
    ensures
        forall|at: int| #[trigger]
            occurs_at(text, term, at) ==> term_spans(text, term).contains(
                span_at(text, term, at),
            ),
        forall|i: int|
            0 <= i < term_spans(text, term).len() ==> spans_occurrence(
                text,
                term,
                0,
                #[trigger] term_spans(text, term)[i],
            ),
{
    lemma_spans_from_occurrences(text, term, 0);
}

/// The byte range from `start` to `end` shares a byte with an occurrence of
/// `term` in `text`, or lies around an occurrence of the empty term.
pub open spec fn meets_term(text: Seq<char>, term: Seq<char>, start: int, end: int) -> bool {
    exists|at: int| #[trigger]
        occurs_at(text, term, at) && start < span_at(text, term, at).1 && end > span_at(
            text,
            term,
            at,
        ).0
}

/// A byte range meets one of the spans of a term if and only if it meets an
/// occurrence of the term.
pub proof fn lemma_meets_occurrence(text: Seq<char>, term: Seq<char>, start: int, end: int)
    ensures
        meets_any(term_spans(text, term), start, end) <==> meets_term(text, term, start, end),
{
    lemma_every_occurrence_has_its_span(text, term);
    let spans = term_spans(text, term);
    if meets_any(spans, start, end) {
        let i = choose|i: int| 0 <= i < spans.len() && start < (#[trigger] spans[i]).1 && end
            > spans[i].0;
        assert(spans_occurrence(text, term, 0, spans[i]));
        let at = choose|at: int|
            0 <= at && #[trigger] occurs_at(text, term, at) && spans[i] == span_at(text, term, at);
        assert(occurs_at(text, term, at) && start < span_at(text, term, at).1 && end > span_at(
            text,
            term,
            at,
        ).0);
    }
    if meets_term(text, term, start, end) {
        let at = choose|at: int| #[trigger]
            occurs_at(text, term, at) && start < span_at(text, term, at).1 && end > span_at(
                text,
                term,
                at,
            ).0;
        let i = choose|i: int| 0 <= i < spans.len() && spans[i] == span_at(text, term, at);
        assert(start < spans[i].1 && end > spans[i].0);
    }
}

/// A byte range meets one of two lists of spans put together if and only if
/// it meets one of either list.
proof fn lemma_meets_any_of_two(
    first: Seq<(int, int)>,
    second: Seq<(int, int)>,
    start: int,
    end: int,
)
    ensures
        meets_any(first + second, start, end) <==> meets_any(first, start, end) || meets_any(
            second,
            start,
            end,
        ),
{
    let both = first + second;
    if meets_any(both, start, end) {
        let i = choose|i: int| 0 <= i < both.len() && start < (#[trigger] both[i]).1 && end
            > both[i].0;
        if i < first.len() {
            assert(both[i] == first[i]);
        } else {
            assert(both[i] == second[i - first.len()]);
        }
    }
    if meets_any(first, start, end) {
        let i = choose|i: int| 0 <= i < first.len() && start < (#[trigger] first[i]).1 && end
            > first[i].0;
        assert(both[i] == first[i]);
    }
    if meets_any(second, start, end) {
        let i = choose|i: int| 0 <= i < second.len() && start < (#[trigger] second[i]).1 && end
            > second[i].0;
        assert(both[i + first.len()] == second[i]);
    }
}

/// A byte range meets one of the spans of a list of terms if and only if it
/// meets an occurrence of one of the terms, wherever in the text that
/// occurrence stands and whatever other occurrence it overlaps.
pub proof fn lemma_meets_some_term(
    text: Seq<char>,
    terms: Seq<Seq<char>>,
    start: int,
    end: int,
)
    ensures
        meets_any(all_term_spans(text, terms), start, end) <==> exists|k: int|
            0 <= k < terms.len() && meets_term(text, #[trigger] terms[k], start, end),
    decreases terms.len(),
{
    if terms.len() > 0 {
        let front = terms.drop_last();
        lemma_meets_some_term(text, front, start, end);
        lemma_meets_occurrence(text, terms.last(), start, end);
        lemma_meets_any_of_two(
            all_term_spans(text, front),
            term_spans(text, terms.last()),
            start,
            end,
        );
        if exists|k: int| 0 <= k < front.len() && meets_term(text, #[trigger] front[k], start, end) {
            let k = choose|k: int|
                0 <= k < front.len() && meets_term(text, #[trigger] front[k], start, end);
            assert(meets_term(text, terms[k], start, end));
        }
        if meets_term(text, terms.last(), start, end) {
            assert(meets_term(text, terms[terms.len() - 1], start, end));
        }
        if exists|k: int| 0 <= k < terms.len() && meets_term(text, #[trigger] terms[k], start, end) {
            let k = choose|k: int|
                0 <= k < terms.len() && meets_term(text, #[trigger] terms[k], start, end);
            if k < front.len() {
                assert(meets_term(text, front[k], start, end));
            }
        }
    }
}

/// The byte spans of the occurrences of every term, term by term.
pub open spec fn all_term_spans(text: Seq<char>, terms: Seq<Seq<char>>) -> Seq<(int, int)>
    decreases terms.len(),
{
    if terms.len() == 0 {
        Seq::empty()
    } else {
        all_term_spans(text, terms.drop_last()) + term_spans(text, terms.last())
    }
}

/// Spans held as machine integers, read as spans of integers.
pub open spec fn spans_view(spans: Seq<(usize, usize)>) -> Seq<(int, int)> {
    spans.map_values(|span: (usize, usize)| (span.0 as int, span.1 as int))
}

/// The byte range from `start` to `end` meets one of the spans.
pub open spec fn meets_any(spans: Seq<(int, int)>, start: int, end: int) -> bool {
    exists|i: int| 0 <= i < spans.len() && start < (#[trigger] spans[i]).1 && end > spans[i].0
}

/// Where `term` occurs nowhere at or behind `at`, blocking it out copies the
/// text from `at` on. So does blocking out the empty term.
proof fn lemma_mask_from_copies(text: Seq<char>, term: Seq<char>, at: int)
    requires
        0 <= at <= text.len(),
        term.len() == 0 || forall|k: int| at <= k ==> !occurs_at(text, term, k),
    ensures
        mask_from(text, term, at) == text.skip(at),
    decreases text.len() - at,
{
    if at < text.len() {
        lemma_mask_from_copies(text, term, at + 1);
        assert(seq![text[at]] + text.skip(at + 1) =~= text.skip(at));
    } else {
        assert(text.skip(at) =~= Seq::<char>::empty());
    }
}

/// Blocking out a term that does not stand in the text, or the empty term,
/// leaves the text as it is.
pub proof fn lemma_mask_without_occurrence(text: Seq<char>, term: Seq<char>)
    requires
        term.len() == 0 || !contains_term(text, term),
    ensures
        mask_term(text, term) == text,
{
    lemma_mask_from_copies(text, term, 0);
    assert(text.skip(0) =~= text);
}

/// A blocklist of which no term is met leaves the text as it is.
pub proof fn lemma_no_hit_no_change(text: Seq<char>, terms: Seq<Seq<char>>)
    requires
        !any_term_hits(text, terms),
    ensures
        force_terms(text, terms) == text,
    decreases terms.len(),
{
    if terms.len() > 0 {
        lemma_no_hit_no_change(text, terms.drop_first());
    }
}

/// The first occurrence of a blocked term becomes a run of as many blocks as
/// the term has bytes; what stands before it stays, and what follows it is
/// searched in turn.
pub proof fn lemma_first_occurrence_blocked(before: Seq<char>, term: Seq<char>, after: Seq<char>)
    requires
        term.len() > 0,
        forall|k: int| 0 <= k < before.len() ==> !occurs_at(before + term + after, term, k),
    ensures
        mask_term(before + term + after, term) == before + block_run(byte_len(term))
            + mask_term(after, term),
{
    let text = before + term + after;
    let behind = before.len() + term.len();
    assert(text.subrange(before.len() as int, behind as int) =~= term);
    lemma_mask_from_prefix(text, term, 0, before.len() as int);
    assert(text.subrange(0, before.len() as int) =~= before);
    lemma_mask_from_suffix(text, term, behind as int, 0);
    assert(text.skip(behind as int) =~= after);
    assert(mask_from(text, term, before.len() as int) == block_run(byte_len(term)) + mask_from(
        text,
        term,
        behind as int,
    ));
    assert(before + (block_run(byte_len(term)) + mask_term(after, term)) =~= before + block_run(
        byte_len(term),
    ) + mask_term(after, term));
}

/// Up to the next occurrence the text is copied.
proof fn lemma_mask_from_prefix(text: Seq<char>, term: Seq<char>, at: int, next: int)
    requires
        0 <= at <= next <= text.len(),
        forall|k: int| at <= k < next ==> !occurs_at(text, term, k),
    ensures
        mask_from(text, term, at) == text.subrange(at, next) + mask_from(text, term, next),
    decreases next - at,
{
    if at < next {
        lemma_mask_from_prefix(text, term, at + 1, next);
        assert(seq![text[at]] + text.subrange(at + 1, next) =~= text.subrange(at, next));
        assert(seq![text[at]] + (text.subrange(at + 1, next) + mask_from(text, term, next))
            =~= text.subrange(at, next) + mask_from(text, term, next));
    } else {
        assert(text.subrange(at, next) + mask_from(text, term, next) =~= mask_from(
            text,
            term,
            next,
        ));
    }
}

/// What the search makes of the text behind a position depends on nothing
/// before that position.
proof fn lemma_mask_from_suffix(text: Seq<char>, term: Seq<char>, cut: int, at: int)
    requires
        0 <= cut <= text.len(),
        0 <= at,
    ensures
        mask_from(text, term, cut + at) == mask_from(text.skip(cut), term, at),
    decreases text.len() - cut - at,
{
    let tail = text.skip(cut);
    if cut + at < text.len() {
        assert(tail[at] == text[cut + at]);
        if at + term.len() <= tail.len() {
            assert(tail.subrange(at, at + term.len()) =~= text.subrange(
                cut + at,
                cut + at + term.len(),
            ));
        }
        assert(occurs_at(tail, term, at) == occurs_at(text, term, cut + at));
        if term.len() > 0 && occurs_at(text, term, cut + at) {
            lemma_mask_from_suffix(text, term, cut, at + term.len());
        } else {
            lemma_mask_from_suffix(text, term, cut, at + 1);
        }
    }
}

/// Whether `term` stands in `text` at position `at`.
pub fn matches_at(text: &Vec<char>, term: &Vec<char>, at: usize) -> (found: bool)
    ensures
        found == occurs_at(text@, term@, at as int),
{
    if term.len() > text.len() || at > text.len() - term.len() {
        return false;
    }
    let mut k: usize = 0;
    while k < term.len()
        invariant
            k <= term.len(),
            at + term.len() <= text.len(),
            forall|j: int| 0 <= j < k ==> text@[at + j] == term@[j],
        decreases term.len() - k,
    {
        if text[at + k] != term[k] {
            proof {
                assert(text@.subrange(at as int, at + term.len())[k as int] == text@[at + k]);
            }
            return false;
        }
        k = k + 1;
    }
    proof {
        assert(text@.subrange(at as int, at + term.len()) =~= term@);
    }
    true
}

/// Whether `term` stands somewhere in `text`.
pub fn contains(text: &Vec<char>, term: &Vec<char>) -> (found: bool)
    ensures
        found == contains_term(text@, term@),
{
    if term.len() > text.len() {
        return false;
    }
    let last: usize = text.len() - term.len();
    let mut at: usize = 0;
    while at < last
        invariant
            last == text.len() - term.len(),
            at <= last,
            forall|k: int| 0 <= k < at ==> !occurs_at(text@, term@, k),
        decreases last - at,
    {
        if matches_at(text, term, at) {
            return true;
        }
        at = at + 1;
    }
    matches_at(text, term, last)
}

/// `text` with every occurrence of `term` blocked out; `run` is the number
/// of bytes of the term.
pub(crate) fn block_out(text: &Vec<char>, term: &Vec<char>, run: usize) -> (masked: Vec<char>)
    requires
        run == byte_len(term@),
    ensures
        masked@ == mask_term(text@, term@),
{
    let mut masked: Vec<char> = Vec::new();
    let mut at: usize = 0;
    proof {
        assert(masked@ + mask_from(text@, term@, 0) =~= mask_term(text@, term@));
    }
    while at < text.len()
        invariant
            at <= text.len(),
            run == byte_len(term@),
            masked@ + mask_from(text@, term@, at as int) == mask_term(text@, term@),
        decreases text.len() - at,
    {
        let ghost before = masked@;
        if term.len() > 0 && matches_at(text, term, at) {
            let mut done: usize = 0;
            proof {
                assert(before + block_run(0) =~= before);
            }
            while done < run
                invariant
                    done <= run,
                    masked@ == before + block_run(done as nat),
                decreases run - done,
            {
                proof {
                    assert((before + block_run(done as nat)).push(BLOCK) =~= before + block_run(
                        (done + 1) as nat,
                    ));
                }
                masked.push(BLOCK);
                done = done + 1;
            }
            proof {
                assert((before + block_run(run as nat)) + mask_from(
                    text@,
                    term@,
                    at + term@.len(),
                ) =~= before + mask_from(text@, term@, at as int));
            }
            at = at + term.len();
        } else {
            proof {
                assert(before.push(text@[at as int]) + mask_from(text@, term@, at + 1) =~= before
                    + mask_from(text@, term@, at as int));
            }
            masked.push(text[at]);
            at = at + 1;
        }
    }
    proof {
        assert(masked@ + Seq::<char>::empty() =~= masked@);
    }
    masked
}

/// Appends to `spans` the byte spans of the occurrences of `term` in `text`;
/// `run` is the number of bytes of the term.
pub(crate) fn collect_spans(
    text: &Vec<char>,
    term: &Vec<char>,
    run: usize,
    spans: &mut Vec<(usize, usize)>,
)
    requires
        run == byte_len(term@),
        byte_len(text@) <= usize::MAX,
    ensures
        spans_view(final(spans)@) == spans_view(old(spans)@) + term_spans(text@, term@),
{
    let ghost before = spans_view(spans@);
    if term.len() > text.len() {
        proof {
            assert(before + term_spans(text@, term@) =~= before);
        }
        return ;
    }
    let last: usize = text.len() - term.len();
    let ghost target = before + term_spans(text@, term@);
    let mut at: usize = 0;
    let mut offset: usize = 0;
    proof {
        assert(text@.take(0) =~= Seq::<char>::empty());
    }
    while at < last
        invariant
            last == text.len() - term.len(),
            at <= last,
            run == byte_len(term@),
            byte_len(text@) <= usize::MAX,
            offset == byte_len(text@.take(at as int)),
            spans_view(spans@) + spans_from(text@, term@, at as int) == target,
        decreases last - at,
    {
        let ghost so_far = spans_view(spans@);
        if matches_at(text, term, at) {
            proof {
                let behind = at + term@.len();
                assert(text@.take(behind) =~= text@.take(at as int) + term@);
                lemma_byte_len_concat(text@.take(at as int), term@);
                lemma_byte_len_prefix(text@, behind);
                assert(spans_view(spans@.push((offset, (offset + run) as usize))) =~= so_far.push(
                    span_at(text@, term@, at as int),
                ));
                assert(so_far.push(span_at(text@, term@, at as int)) + spans_from(
                    text@,
                    term@,
                    at + 1,
                ) =~= so_far + spans_from(text@, term@, at as int));
            }
            spans.push((offset, offset + run));
        }
        proof {
            lemma_byte_len_step(text@, at as int);
            lemma_byte_len_prefix(text@, at + 1);
        }
        offset = offset + width_of(text[at]);
        at = at + 1;
    }
    let ghost so_far = spans_view(spans@);
    proof {
        assert(spans_from(text@, term@, last + 1) =~= Seq::<(int, int)>::empty());
    }
    if matches_at(text, term, last) {
        proof {
            let behind = last + term@.len();
            assert(text@.take(behind) =~= text@.take(last as int) + term@);
            lemma_byte_len_concat(text@.take(last as int), term@);
            lemma_byte_len_prefix(text@, behind);
            assert(spans_view(spans@.push((offset, (offset + run) as usize))) =~= so_far.push(
                span_at(text@, term@, last as int),
            ));
            assert(so_far.push(span_at(text@, term@, last as int)) =~= so_far + spans_from(
                text@,
                term@,
                last as int,
            ));
        }
        spans.push((offset, offset + run));
    } else {
        proof {
            assert(so_far + spans_from(text@, term@, last as int) =~= so_far);
        }
    }
}

/// Whether the byte range from `start` to `end` meets one of the spans.
pub fn meets_span(spans: &Vec<(usize, usize)>, start: usize, end: usize) -> (met: bool)
    ensures
        met == meets_any(spans_view(spans@), start as int, end as int),
{
    let mut i: usize = 0;
    while i < spans.len()
        invariant
            i <= spans.len(),
            forall|k: int|
                0 <= k < i ==> !(start < (#[trigger] spans_view(spans@)[k]).1 && end > spans_view(
                    spans@,
                )[k].0),
        decreases spans.len() - i,
    {
        let span = spans[i];
        if start < span.1 && end > span.0 {
            proof {
                assert(spans_view(spans@)[i as int] == (span.0 as int, span.1 as int));
            }
            return true;
        }
        proof {
            assert(spans_view(spans@)[i as int] == (span.0 as int, span.1 as int));
        }
        i = i + 1;
    }
    false
}

} // verus!
