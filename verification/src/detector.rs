use crate::types::PiiType;
use vstd::prelude::*;
use vstd::utf8::*;
use zeroize::Zeroize;

verus! {

/// One located occurrence of personally identifiable information.
///
/// `start` and `end` are byte offsets into the UTF-8 encoding of the scanned
/// text. `original` holds the matched text and is erased from memory when the
/// value is dropped.
#[derive(Debug, Clone, PartialEq, Eq)]
pub struct Detection {
    pub pii_type: PiiType,
    pub start: usize,
    pub end: usize,
    pub original: String,
}

/// `String::zeroize` of the zeroize crate: overwrites the bytes of the string
/// and its spare capacity with zeros, then clears it, so that the string is
/// empty afterwards. It neither unwinds nor touches any invariant.
#[verifier::external_body]
fn wipe_string(secret: &mut String)
    ensures
        final(secret)@ == Seq::<char>::empty(),
    opens_invariants none
    no_unwind
{
    secret.zeroize();
}

impl Detection {
    /// Number of bytes the span covers; negative where `end` lies before
    /// `start`.
    pub open spec fn span_len(self) -> int {
        self.end - self.start
    }

    /// The span is a non-empty range of whole characters of `text`.
    pub open spec fn fits(self, text: Seq<char>) -> bool {
        &&& self.start < self.end <= encode_utf8(text).len()
        &&& is_char_boundary(encode_utf8(text), self.start as int)
        &&& is_char_boundary(encode_utf8(text), self.end as int)
    }

    /// The two spans share at least one byte position.
    pub open spec fn overlaps(self, other: Detection) -> bool {
        self.start < other.end && other.start < self.end
    }

    /// `self` sorts at or before `other`: earlier start first, and of two
    /// spans with the same start the longer one first.
    pub open spec fn precedes(self, other: Detection) -> bool {
        self.start < other.start || (self.start == other.start && self.span_len()
            >= other.span_len())
    }

    /// Erases the matched text from memory. The category and the span stay.
    pub fn zeroize(&mut self)
        ensures
            final(self).original@ == Seq::<char>::empty(),
            final(self).pii_type == old(self).pii_type,
            final(self).start == old(self).start,
            final(self).end == old(self).end,
    {
        wipe_string(&mut self.original);
    }

    /// Whether `self` covers more bytes than `other`. Sums stand in for the
    /// differences, so that a span that ends before it starts is compared as
    /// one of negative length.
    fn longer_than(&self, other: &Detection) -> (longer: bool)
        ensures
            longer == (self.span_len() > other.span_len()),
    {
        self.end as u128 + other.start as u128 > other.end as u128 + self.start as u128
    }

    fn sorts_before(&self, other: &Detection) -> (before: bool)
        ensures
            before == self.precedes(*other),
    {
        self.start < other.start || (self.start == other.start && !other.longer_than(self))
    }
}

impl Drop for Detection {
    fn drop(&mut self)
        opens_invariants none
        no_unwind
    {
        wipe_string(&mut self.original);
    }
}

/// Every span is a non-empty range of whole characters of `text`.
pub open spec fn all_fit(spans: Seq<Detection>, text: Seq<char>) -> bool {
    forall|i: int| 0 <= i < spans.len() ==> (#[trigger] spans[i]).fits(text)
}

/// Starts ascend, and each span ends before the next one starts.
pub open spec fn sorted_disjoint(spans: Seq<Detection>) -> bool {
    forall|i: int, j: int|
        0 <= i < j < spans.len() ==> (#[trigger] spans[i]).start <= (#[trigger] spans[j]).start
            && spans[i].end <= spans[j].start
}

/// Each span sorts at or before every span behind it.
pub open spec fn in_order(spans: Seq<Detection>) -> bool {
    forall|i: int, j: int|
        0 <= i < j < spans.len() ==> (#[trigger] spans[i]).precedes(#[trigger] spans[j])
}

/// `sorted` with `d` placed behind the last element that sorts at or before
/// it.
pub open spec fn insert_ordered(sorted: Seq<Detection>, d: Detection) -> Seq<Detection>
    decreases sorted.len(),
{
    if sorted.len() == 0 {
        seq![d]
    } else if sorted.last().precedes(d) {
        sorted.push(d)
    } else {
        insert_ordered(sorted.drop_last(), d).push(sorted.last())
    }
}

/// The spans sorted by start, longer first among equal starts, and in their
/// given order among equal spans.
pub open spec fn sort_by_start(spans: Seq<Detection>) -> Seq<Detection>
    decreases spans.len(),
{
    if spans.len() == 0 {
        spans
    } else {
        insert_ordered(sort_by_start(spans.drop_last()), spans.last())
    }
}

/// One left-to-right pass over sorted candidates. A candidate that starts
/// before the end of `current` replaces it if it is strictly longer, and is
/// passed over otherwise; one that starts at or behind that end closes
/// `current` and takes its place.
pub open spec fn sweep(current: Detection, rest: Seq<Detection>) -> Seq<Detection>
    decreases rest.len(),
{
    if rest.len() == 0 {
        seq![current]
    } else if rest[0].start < current.end {
        if rest[0].span_len() > current.span_len() {
            sweep(rest[0], rest.drop_first())
        } else {
            sweep(current, rest.drop_first())
        }
    } else {
        seq![current] + sweep(rest[0], rest.drop_first())
    }
}

/// What overlap resolution keeps of `spans`.
pub open spec fn resolve(spans: Seq<Detection>) -> Seq<Detection> {
    if spans.len() == 0 {
        spans
    } else {
        let sorted = sort_by_start(spans);
        sweep(sorted[0], sorted.drop_first())
    }
}

/// Where the scan from the back stops is where `insert_ordered` puts `d`.
proof fn lemma_insert_position(sorted: Seq<Detection>, d: Detection, at: int)
    requires
        0 <= at <= sorted.len(),
        at > 0 ==> sorted[at - 1].precedes(d),
        forall|k: int| at <= k < sorted.len() ==> !(#[trigger] sorted[k]).precedes(d),
    ensures
        insert_ordered(sorted, d) == sorted.insert(at, d),
    decreases sorted.len(),
{
    if sorted.len() == 0 {
        assert(sorted.insert(at, d) =~= seq![d]);
    } else if at == sorted.len() {
        assert(sorted.insert(at, d) =~= sorted.push(d));
    } else {
        let front = sorted.drop_last();
        assert(!sorted[sorted.len() - 1].precedes(d));
        lemma_insert_position(front, d, at);
        assert(front.insert(at, d).push(sorted.last()) =~= sorted.insert(at, d));
    }
}

/// `insert_ordered` keeps every element and adds `d`.
proof fn lemma_insert_ordered_len(sorted: Seq<Detection>, d: Detection)
    ensures
        insert_ordered(sorted, d).len() == sorted.len() + 1,
    decreases sorted.len(),
{
    if sorted.len() > 0 && !sorted.last().precedes(d) {
        lemma_insert_ordered_len(sorted.drop_last(), d);
    }
}

/// Sorting keeps the number of spans.
pub proof fn lemma_sort_len(spans: Seq<Detection>)
    ensures
        sort_by_start(spans).len() == spans.len(),
    decreases spans.len(),
{
    if spans.len() > 0 {
        lemma_sort_len(spans.drop_last());
        lemma_insert_ordered_len(sort_by_start(spans.drop_last()), spans.last());
    }
}

/// Stable insertion sort by start, longer spans first among equal starts.
fn sort_detections(detections: Vec<Detection>) -> (sorted: Vec<Detection>)
    ensures
        sorted@ == sort_by_start(detections@),
{
    let ghost input = detections@;
    let mut sorted: Vec<Detection> = Vec::new();
    for d in it: detections
        invariant
            it.seq() == input,
            sorted@ == sort_by_start(input.take(it.index() as int)),
    {
        let mut at: usize = sorted.len();
        while at > 0 && !sorted[at - 1].sorts_before(&d)
            invariant
                at <= sorted.len(),
                forall|k: int| at <= k < sorted.len() ==> !(#[trigger] sorted@[k]).precedes(d),
            decreases at,
        {
            at = at - 1;
        }
        proof {
            lemma_insert_position(sorted@, d, at as int);
            assert(input.take(it.index() + 1).drop_last() =~= input.take(it.index() as int));
        }
        sorted.insert(at, d);
    }
    proof {
        assert(input.take(input.len() as int) =~= input);
    }
    sorted
}

/// The place at which `insert_ordered` puts `d` into `sorted`.
proof fn insert_point(sorted: Seq<Detection>, d: Detection) -> (at: int)
    ensures
        0 <= at <= sorted.len(),
        at > 0 ==> sorted[at - 1].precedes(d),
        forall|k: int| at <= k < sorted.len() ==> !(#[trigger] sorted[k]).precedes(d),
        insert_ordered(sorted, d) == sorted.insert(at, d),
    decreases sorted.len(),
{
    if sorted.len() == 0 || sorted.last().precedes(d) {
        let at = sorted.len() as int;
        lemma_insert_position(sorted, d, at);
        at
    } else {
        let front = sorted.drop_last();
        let at = insert_point(front, d);
        assert forall|k: int| at <= k < sorted.len() implies !(#[trigger] sorted[k]).precedes(
            d,
        ) by {
            if k < front.len() {
                assert(front[k] == sorted[k]);
            }
        }
        if at > 0 {
            assert(front[at - 1] == sorted[at - 1]);
        }
        lemma_insert_position(sorted, d, at);
        at
    }
}

/// Sorting permutes: each span occurs in the result as often as in the input.
pub proof fn lemma_sort_permutes(spans: Seq<Detection>)
    ensures
        sort_by_start(spans).to_multiset() == spans.to_multiset(),
    decreases spans.len(),
{
    if spans.len() > 0 {
        let front = spans.drop_last();
        lemma_sort_permutes(front);
        let at = insert_point(sort_by_start(front), spans.last());
        vstd::seq_lib::to_multiset_insert(sort_by_start(front), at, spans.last());
        vstd::seq_lib::to_multiset_build(front, spans.last());
        assert(front.push(spans.last()) =~= spans);
    }
}

/// Every sorted span is one of the given spans.
pub proof fn lemma_sort_members(spans: Seq<Detection>)
    ensures
        forall|i: int|
            0 <= i < sort_by_start(spans).len() ==> spans.contains(
                #[trigger] sort_by_start(spans)[i],
            ),
{
    lemma_sort_permutes(spans);
    assert forall|i: int| 0 <= i < sort_by_start(spans).len() implies spans.contains(
        #[trigger] sort_by_start(spans)[i],
    ) by {
        let d = sort_by_start(spans)[i];
        assert(sort_by_start(spans).contains(d));
        vstd::seq_lib::to_multiset_contains(sort_by_start(spans), d);
        vstd::seq_lib::to_multiset_contains(spans, d);
    }
}

/// The sorted spans are in order: starts ascend, and among equal starts
/// lengths descend.
pub proof fn lemma_sort_in_order(spans: Seq<Detection>)
    ensures
        in_order(sort_by_start(spans)),
    decreases spans.len(),
{
    if spans.len() > 0 {
        let front = sort_by_start(spans.drop_last());
        let d = spans.last();
        lemma_sort_in_order(spans.drop_last());
        let at = insert_point(front, d);
        let sorted = front.insert(at, d);
        assert forall|i: int, j: int| 0 <= i < j < sorted.len() implies (#[trigger] sorted[i]).precedes(
            #[trigger] sorted[j],
        ) by {
            if j < at {
                assert(front[i].precedes(front[j]));
            } else if j == at {
                if i < at - 1 {
                    assert(front[i].precedes(front[at - 1]));
                }
            } else if i == at {
                assert(!front[j - 1].precedes(d));
            } else if i < at {
                assert(front[i].precedes(front[j - 1]));
            } else {
                assert(front[i - 1].precedes(front[j - 1]));
            }
        }
    }
}

/// The test for a span with the start and the length of `probe`.
pub open spec fn same_span_as(probe: Detection) -> spec_fn(Detection) -> bool {
    |d: Detection| d.start == probe.start && d.span_len() == probe.span_len()
}

/// A filter lets nothing pass of spans none of which meets its test.
proof fn lemma_filter_none(spans: Seq<Detection>, test: spec_fn(Detection) -> bool)
    requires
        forall|i: int| 0 <= i < spans.len() ==> !test(#[trigger] spans[i]),
    ensures
        spans.filter(test) == Seq::<Detection>::empty(),
    decreases spans.len(),
{
    reveal(Seq::filter);
    if spans.len() > 0 {
        let front = spans.drop_last();
        assert(forall|i: int| 0 <= i < front.len() ==> front[i] == spans[i]);
        lemma_filter_none(front, test);
    }
}

/// Sorting is stable: the spans that share a start and a length stand in the
/// result in the order in which they were given.
pub proof fn lemma_sort_stable(spans: Seq<Detection>, probe: Detection)
    ensures
        sort_by_start(spans).filter(same_span_as(probe)) == spans.filter(same_span_as(probe)),
    decreases spans.len(),
{
    let test = same_span_as(probe);
    if spans.len() > 0 {
        let front = spans.drop_last();
        let last = spans.last();
        let sorted = sort_by_start(front);
        lemma_sort_stable(front, probe);
        let at = insert_point(sorted, last);
        let head = sorted.take(at);
        let tail = sorted.skip(at);
        let none = Seq::<Detection>::empty();
        let one = if test(last) {
            seq![last]
        } else {
            none
        };
        assert(sorted =~= head + tail);
        assert(sorted.insert(at, last) =~= head + seq![last] + tail);
        Seq::filter_distributes_over_add(head, tail, test);
        Seq::filter_distributes_over_add(head + seq![last], tail, test);
        Seq::filter_distributes_over_add(head, seq![last], test);
        assert(seq![last].filter(test) == one) by {
            lemma_filter_none(none, test);
            none.lemma_filter_push(last, test);
            assert(none.push(last) =~= seq![last]);
            assert(none.push(last) =~= one || !test(last));
        }
        assert(spans.filter(test) == front.filter(test) + one) by {
            front.lemma_filter_push(last, test);
            assert(front.push(last) =~= spans);
            assert(front.filter(test).push(last) =~= front.filter(test) + seq![last]);
            assert(front.filter(test) + none =~= front.filter(test));
        }
        if test(last) {
            assert forall|i: int| 0 <= i < tail.len() implies !test(#[trigger] tail[i]) by {
                assert(tail[i] == sorted[at + i]);
                assert(!sorted[at + i].precedes(last));
            }
            lemma_filter_none(tail, test);
            assert(head.filter(test) + none =~= head.filter(test));
            assert(head.filter(test) + one + none =~= head.filter(test) + one);
        } else {
            assert(head.filter(test) + none + tail.filter(test) =~= head.filter(test)
                + tail.filter(test));
            assert(front.filter(test) + none =~= front.filter(test));
        }
    }
}

/// What the pass keeps of candidates whose starts ascend: no span that
/// starts before `current` does, and spans whose starts ascend and of which
/// each ends at or before the start of the next.
proof fn lemma_sweep(current: Detection, rest: Seq<Detection>)
    requires
        forall|k: int| 0 <= k < rest.len() ==> current.start <= (#[trigger] rest[k]).start,
        forall|i: int, j: int|
            0 <= i < j < rest.len() ==> (#[trigger] rest[i]).start <= (#[trigger] rest[j]).start,
    ensures
        sorted_disjoint(sweep(current, rest)),
        forall|k: int|
            0 <= k < sweep(current, rest).len() ==> current.start <= (#[trigger] sweep(
                current,
                rest,
            )[k]).start,
    decreases rest.len(),
{
    if rest.len() > 0 {
        let next = rest[0];
        let tail = rest.drop_first();
        assert(forall|k: int| 0 <= k < tail.len() ==> tail[k] == rest[k + 1]);
        if next.start < current.end {
            let winner = if next.span_len() > current.span_len() {
                next
            } else {
                current
            };
            lemma_sweep(winner, tail);
        } else {
            lemma_sweep(next, tail);
            let kept_tail = sweep(next, tail);
            let all = seq![current] + kept_tail;
            assert forall|i: int, j: int| 0 <= i < j < all.len() implies (#[trigger] all[i]).start
                <= (#[trigger] all[j]).start && all[i].end <= all[j].start by {
                if i > 0 {
                    assert(kept_tail[i - 1].end <= kept_tail[j - 1].start);
                } else {
                    assert(next.start <= kept_tail[j - 1].start);
                }
            }
            assert forall|k: int| 0 <= k < all.len() implies current.start <= (#[trigger] all[k]).start by {
                if k > 0 {
                    assert(next.start <= kept_tail[k - 1].start);
                }
            }
        }
    }
}

/// Every span that the pass keeps is the current one or one of the
/// candidates.
proof fn lemma_sweep_members(current: Detection, rest: Seq<Detection>)
    ensures
        forall|k: int|
            0 <= k < sweep(current, rest).len() ==> {
                let kept = #[trigger] sweep(current, rest)[k];
                kept == current || rest.contains(kept)
            },
    decreases rest.len(),
{
    if rest.len() > 0 {
        let next = rest[0];
        let tail = rest.drop_first();
        assert(forall|k: int| 0 <= k < tail.len() ==> tail[k] == rest[k + 1]);
        let winner = if next.start < current.end && next.span_len() <= current.span_len() {
            current
        } else {
            next
        };
        lemma_sweep_members(winner, tail);
        let kept_tail = sweep(winner, tail);
        assert forall|k: int| 0 <= k < kept_tail.len() implies current == #[trigger] kept_tail[k]
            || rest.contains(kept_tail[k]) by {
            let kept = kept_tail[k];
            if kept != current && kept != next {
                let at = choose|at: int| 0 <= at < tail.len() && tail[at] == kept;
                assert(rest[at + 1] == kept);
            }
        }
        if !(next.start < current.end) {
            let all = seq![current] + kept_tail;
            assert forall|k: int| 0 <= k < all.len() implies current == #[trigger] all[k]
                || rest.contains(all[k]) by {
                if k > 0 {
                    assert(all[k] == kept_tail[k - 1]);
                }
            }
        }
    }
}

/// Every span that overlap resolution keeps is one of the spans given.
pub proof fn lemma_resolve_members(spans: Seq<Detection>)
    ensures
        forall|i: int|
            0 <= i < resolve(spans).len() ==> spans.contains(#[trigger] resolve(spans)[i]),
{
    if spans.len() > 0 {
        let sorted = sort_by_start(spans);
        lemma_sort_len(spans);
        lemma_sort_members(spans);
        let first = sorted[0];
        let rest = sorted.drop_first();
        lemma_sweep_members(first, rest);
        assert forall|i: int| 0 <= i < resolve(spans).len() implies spans.contains(
            #[trigger] resolve(spans)[i],
        ) by {
            let kept = resolve(spans)[i];
            if kept != first {
                let at = choose|at: int| 0 <= at < rest.len() && rest[at] == kept;
                assert(sorted[at + 1] == kept);
            }
        }
    }
}

/// Whatever spans are given, what overlap resolution keeps of them is sorted
/// ascending by start, and no two of the spans kept overlap: each ends at or
/// before the start of the next.
pub proof fn lemma_resolve_sorted_disjoint(spans: Seq<Detection>)
    ensures
        sorted_disjoint(resolve(spans)),
        forall|i: int, j: int|
            0 <= i < j < resolve(spans).len() ==> !(#[trigger] resolve(spans)[i]).overlaps(
                #[trigger] resolve(spans)[j],
            ),
{
    if spans.len() > 0 {
        let sorted = sort_by_start(spans);
        lemma_sort_len(spans);
        lemma_sort_in_order(spans);
        let first = sorted[0];
        let rest = sorted.drop_first();
        assert(forall|k: int| 0 <= k < rest.len() ==> rest[k] == sorted[k + 1]);
        assert forall|k: int| 0 <= k < rest.len() implies first.start <= (#[trigger] rest[k]).start by {
            assert(sorted[0].precedes(sorted[k + 1]));
        }
        assert forall|i: int, j: int| 0 <= i < j < rest.len() implies (#[trigger] rest[i]).start
            <= (#[trigger] rest[j]).start by {
            assert(sorted[i + 1].precedes(sorted[j + 1]));
        }
        lemma_sweep(first, rest);
    }
}

/// Of two overlapping spans exactly one is kept: the longer one, and of two
/// of the same length the one given first. The one case left out is that of
/// two spans of the same length of which the second starts first: there the
/// second is kept.
pub proof fn lemma_overlapping_pair(first: Detection, second: Detection)
    requires
        first.overlaps(second),
        !(first.span_len() == second.span_len() && second.start < first.start),
    ensures
        resolve(seq![first, second]) == seq![
            if second.span_len() > first.span_len() {
                second
            } else {
                first
            },
        ],
{
    let pair = seq![first, second];
    assert(pair.drop_last() =~= seq![first]);
    assert(seq![first].drop_last() =~= Seq::<Detection>::empty());
    assert(sort_by_start(seq![first]) =~= seq![first]) by {
        reveal_with_fuel(sort_by_start, 2);
    }
    let sorted = sort_by_start(pair);
    assert(sorted == insert_ordered(seq![first], second));
    if first.precedes(second) {
        assert(sorted =~= seq![first, second]);
        assert(sorted.drop_first() =~= seq![second]);
    } else {
        assert(insert_ordered(seq![first].drop_last(), second) =~= seq![second]);
        assert(sorted =~= seq![second, first]);
        assert(sorted.drop_first() =~= seq![first]);
    }
    let rest = sorted.drop_first();
    assert(rest.drop_first() =~= Seq::<Detection>::empty());
    reveal_with_fuel(sweep, 2);
}

/// Of two spans with the same start and the same length the one given first
/// is kept, whichever detector reported it.
pub proof fn lemma_equal_spans_keep_first(first: Detection, second: Detection)
    requires
        first.start < first.end,
        second.start == first.start,
        second.end == first.end,
    ensures
        resolve(seq![first, second]) == seq![first],
{
    lemma_overlapping_pair(first, second);
}

/// A component that finds the occurrences of one category in a text.
///
/// `detect` owes its caller spans that are sorted ascending by start, do not
/// overlap, are not empty, and begin and end on character boundaries of the
/// text. The composite scanner and the redaction engine rely on it.
pub trait PiiDetector: Send + Sync {
    /// The category that this detector reports.
    fn pii_type(&self) -> PiiType;

    /// The occurrences found in `text`.
    fn detect<'a>(&self, text: &'a str) -> (found: Vec<Detection>)
        ensures
            all_fit(found@, text@),
            sorted_disjoint(found@),
    ;

    /// A second look at a candidate match, such as a checksum. Detectors
    /// without one accept every candidate.
    fn validate(&self, _candidate: &str) -> (accepted: bool)
        default_ensures
            accepted,
    {
        true
    }
}

/// Runs several detectors over one text and merges what they find.
pub struct MultiDetector {
    detectors: Vec<Box<dyn PiiDetector>>,
}

impl MultiDetector {
    /// The detectors registered, in the order in which they are asked.
    pub closed spec fn detectors(&self) -> Seq<Box<dyn PiiDetector>> {
        self.detectors@
    }

    /// Number of detectors registered.
    pub open spec fn detector_count(&self) -> nat {
        self.detectors().len()
    }

    /// A scanner that asks `detectors` in the order given.
    pub fn new(detectors: Vec<Box<dyn PiiDetector>>) -> (scanner: Self)
        ensures
            scanner.detectors() == detectors@,
    {
        Self { detectors }
    }

    /// Asks every detector for its spans in `text` and resolves the overlaps
    /// among all of them.
    ///
    /// What comes back is `resolve` of spans that fit the text, whichever
    /// spans the detectors reported; without detectors it is empty.
    pub fn detect<'a>(&self, text: &'a str) -> (found: Vec<Detection>)
        ensures
            exists|reported: Seq<Detection>|
                all_fit(reported, text@) && found@ == #[trigger] resolve(reported),
            self.detector_count() == 0 ==> found@.len() == 0,
            all_fit(found@, text@),
            sorted_disjoint(found@),
    {
        let mut reported: Vec<Detection> = Vec::new();
        let mut i: usize = 0;
        while i < self.detectors.len()
            invariant
                i <= self.detectors.len(),
                all_fit(reported@, text@),
                self.detectors.len() == 0 ==> reported@.len() == 0,
            decreases self.detectors.len() - i,
        {
            let mut found = self.detectors[i].detect(text);
            reported.append(&mut found);
            i = i + 1;
        }
        let ghost all = reported@;
        let found = Self::resolve_overlaps(reported);
        proof {
            assert forall|k: int| 0 <= k < found@.len() implies (#[trigger] found@[k]).fits(
                text@,
            ) by {
                let at = choose|at: int| 0 <= at < all.len() && all[at] == found@[k];
                assert(all[at].fits(text@));
            }
        }
        found
    }

    /// Sorts the spans by start, longer first among equal starts, and keeps
    /// of each run of overlapping spans the one that the pass arrives at:
    /// a span is given up for a later one only if that one is strictly
    /// longer.
    pub fn resolve_overlaps(detections: Vec<Detection>) -> (resolved: Vec<Detection>)
        ensures
            resolved@ == resolve(detections@),
            sorted_disjoint(resolved@),
            forall|i: int|
                0 <= i < resolved@.len() ==> detections@.contains(#[trigger] resolved@[i]),
    {
        let ghost input = detections@;
        let sorted = sort_detections(detections);
        let ghost candidates = sorted@;
        proof {
            lemma_sort_len(input);
            lemma_resolve_members(input);
            lemma_resolve_sorted_disjoint(input);
        }
        let mut resolved: Vec<Detection> = Vec::new();
        let mut current: Option<Detection> = None;
        for d in it: sorted
            invariant
                it.seq() == candidates,
                match current {
                    None => it.index() == 0 && resolved@.len() == 0,
                    Some(c) => it.index() > 0 && resolved@ + sweep(
                        c,
                        candidates.skip(it.index() as int),
                    ) == sweep(candidates[0], candidates.drop_first()),
                },
        {
            let ghost rest = candidates.skip(it.index() as int);
            proof {
                assert(rest[0] == d);
                assert(rest.drop_first() =~= candidates.skip(it.index() + 1));
            }
            match current {
                None => {
                    proof {
                        assert(candidates.skip(1) =~= candidates.drop_first());
                        assert(resolved@ + sweep(d, candidates.drop_first()) =~= sweep(
                            d,
                            candidates.drop_first(),
                        ));
                    }
                    current = Some(d);
                },
                Some(c) => {
                    if d.start < c.end {
                        if d.longer_than(&c) {
                            current = Some(d);
                        } else {
                            current = Some(c);
                        }
                    } else {
                        proof {
                            assert(resolved@.push(c) + sweep(d, rest.drop_first()) =~= resolved@
                                + (seq![c] + sweep(d, rest.drop_first())));
                        }
                        resolved.push(c);
                        current = Some(d);
                    }
                },
            }
        }
        match current {
            None => {},
            Some(c) => {
                proof {
                    assert(candidates.skip(candidates.len() as int) =~= Seq::<Detection>::empty());
                    assert(resolved@ + seq![c] =~= resolved@.push(c));
                }
                resolved.push(c);
            },
        }
        resolved
    }
}

} // verus!
