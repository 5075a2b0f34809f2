use crate::detector::{all_fit, resolve, sorted_disjoint, Detection, MultiDetector, PiiDetector};
use crate::mask::{
    digit_count, is_digit, lemma_digit_count_split, lemma_digit_count_step, lemma_first_index,
    lemma_last_index, lemma_no_index, mask, mask_all, mask_card, mask_digits, mask_domain,
    mask_email, mask_local,
};
use crate::policy::{terms_view, PolicyView, RedactionPolicy};
use crate::search::{
    all_term_spans, any_term_hits, block_out, collect_spans, contains, force_terms,
    lemma_no_hit_no_change, meets_any, meets_span, spans_view,
};
use crate::text::{
    append_blocks, append_char, append_range, byte_len, byte_length, byte_slice, on_boundary,
    range_byte_length, slice_bytes, to_chars, to_text, BLOCK,
};
use crate::types::PiiType;
use std::borrow::Cow;
use vstd::prelude::*;
use vstd::utf8::*;

verus! {

/// Whether `c` is an ASCII digit.
fn digit(c: char) -> (yes: bool)
    ensures
        yes == is_digit(c),
{
    '0' <= c && c <= '9'
}

/// The test that lets a detection pass whose span meets none of `spans`.
pub open spec fn clear_of(spans: Seq<(int, int)>) -> spec_fn(Detection) -> bool {
    |d: Detection| !meets_any(spans, d.start as int, d.end as int)
}

/// `text` from the byte offset `from` on, with each of the detections
/// replaced by the masked form of its matched text. The detections are
/// sorted, do not overlap and lie behind `from`.
pub open spec fn splice(text: Seq<char>, kept: Seq<Detection>, from: int) -> Seq<char>
    decreases kept.len(),
{
    if kept.len() == 0 {
        byte_slice(text, from, byte_len(text) as int)
    } else {
        byte_slice(text, from, kept[0].start as int) + mask(kept[0].original@, kept[0].pii_type)
            + splice(text, kept.drop_first(), kept[0].end as int)
    }
}

/// What is made of the working text, given the resolved detections in it:
/// those that meet a span of the allowlist are dropped, the others masked.
pub open spec fn masked_text(
    policy: PolicyView,
    working: Seq<char>,
    found: Seq<Detection>,
) -> Seq<char> {
    let kept = found.filter(clear_of(all_term_spans(working, policy.allowlist)));
    if kept.len() == 0 {
        working
    } else {
        splice(working, kept, 0)
    }
}

/// Whether any of the resolved detections is left to mask.
pub open spec fn any_left(policy: PolicyView, working: Seq<char>, found: Seq<Detection>) -> bool {
    found.filter(clear_of(all_term_spans(working, policy.allowlist))).len() > 0
}

/// What `text` is redacted to where the detectors report `reported` in the
/// text that the blocklist left.
pub open spec fn redacted(policy: PolicyView, text: Seq<char>, reported: Seq<Detection>) -> Seq<
    char,
> {
    masked_text(policy, force_terms(text, policy.blocklist), resolve(reported))
}

/// Whether redaction changes nothing, so that the input itself is handed
/// back: the blocklist met none of its terms and no detection is left to
/// mask.
pub open spec fn unchanged(policy: PolicyView, text: Seq<char>, reported: Seq<Detection>) -> bool {
    !any_term_hits(text, policy.blocklist) && !any_left(
        policy,
        force_terms(text, policy.blocklist),
        resolve(reported),
    )
}

/// Without detections every character of the text is copied.
pub proof fn lemma_splice_nothing(text: Seq<char>)
    ensures
        splice(text, Seq::empty(), 0) == text,
{
    let bytes = encode_utf8(text);
    assert(bytes.subrange(0, bytes.len() as int) =~= bytes);
    encode_utf8_decode_utf8(text);
}

/// Where no term of the blocklist is met and the detectors report nothing,
/// redaction changes nothing: the result is the input.
pub proof fn lemma_nothing_found_nothing_changed(policy: PolicyView, text: Seq<char>)
    requires
        !any_term_hits(text, policy.blocklist),
    ensures
        unchanged(policy, text, Seq::empty()),
        redacted(policy, text, Seq::empty()) == text,
{
    lemma_no_hit_no_change(text, policy.blocklist);
    let spans = all_term_spans(text, policy.allowlist);
    assert(Seq::<Detection>::empty().filter(clear_of(spans)).len() == 0) by {
        reveal(Seq::filter);
    }
}

/// The allowlist decides over a detection: one whose span meets a span of an
/// allowed term is never masked, whatever detector reported it, and one whose
/// span meets none stays among those that are masked.
pub proof fn lemma_allowlist_decides(
    policy: PolicyView,
    working: Seq<char>,
    found: Seq<Detection>,
    d: Detection,
)
    requires
        found.contains(d),
    ensures
        found.filter(clear_of(all_term_spans(working, policy.allowlist))).contains(d)
            <==> !meets_any(all_term_spans(working, policy.allowlist), d.start as int, d.end as int),
{
    let test = clear_of(all_term_spans(working, policy.allowlist));
    let kept = found.filter(test);
    if kept.contains(d) {
        let at = choose|at: int| 0 <= at < kept.len() && kept[at] == d;
        found.lemma_filter_pred(test, at);
    }
    if test(d) {
        let at = choose|at: int| 0 <= at < found.len() && found[at] == d;
        found.lemma_filter_contains(test, at);
    }
}

/// The detections whose span meets none of `spans`, in their order.
pub fn drop_protected(detections: Vec<Detection>, spans: &Vec<(usize, usize)>) -> (kept: Vec<
    Detection,
>)
    ensures
        kept@ == detections@.filter(clear_of(spans_view(spans@))),
        sorted_disjoint(detections@) ==> sorted_disjoint(kept@),
        forall|i: int| 0 <= i < kept@.len() ==> detections@.contains(#[trigger] kept@[i]),
{
    let ghost all = detections@;
    let ghost test = clear_of(spans_view(spans@));
    let mut kept: Vec<Detection> = Vec::new();
    proof {
        assert(all.take(0) =~= Seq::<Detection>::empty());
        assert(all.take(0).filter(test) =~= Seq::<Detection>::empty()) by {
            reveal(Seq::filter);
        }
    }
    for d in it: detections
        invariant
            it.seq() == all,
            test == clear_of(spans_view(spans@)),
            kept@ == all.take(it.index() as int).filter(test),
            forall|i: int| 0 <= i < kept@.len() ==> all.contains(#[trigger] kept@[i]),
            sorted_disjoint(all) ==> sorted_disjoint(kept@),
            sorted_disjoint(all) ==> forall|i: int, j: int|
                0 <= i < kept@.len() && it.index() <= j < all.len() ==> (#[trigger] kept@[i]).start
                    <= (#[trigger] all[j]).start && kept@[i].end <= all[j].start,
    {
        proof {
            assert(all.take(it.index() + 1) =~= all.take(it.index() as int).push(d));
            all.take(it.index() as int).lemma_filter_push(d, test);
            assert(all[it.index() as int] == d);
        }
        if !meets_span(spans, d.start, d.end) {
            kept.push(d);
        }
    }
    proof {
        assert(all.take(all.len() as int) =~= all);
    }
    kept
}

/// The redaction engine: a policy, and the detectors whose matches it
/// masks.
pub struct Redactor {
    detector: MultiDetector,
    policy: RedactionPolicy,
}

impl Redactor {
    /// The policy that the engine follows.
    pub closed spec fn policy(&self) -> PolicyView {
        self.policy@
    }

    /// The detectors that the engine asks, in their order.
    pub closed spec fn detectors(&self) -> Seq<Box<dyn PiiDetector>> {
        self.detector.detectors()
    }

    /// Number of detectors that the engine asks.
    pub open spec fn detector_count(&self) -> nat {
        self.detectors().len()
    }

    /// An engine that asks `detectors`, in the order given, and follows
    /// `policy`.
    pub fn new(detectors: Vec<Box<dyn PiiDetector>>, policy: RedactionPolicy) -> (engine: Self)
        ensures
            engine.policy() == policy@,
            engine.detectors() == detectors@,
    {
        Self { detector: MultiDetector::new(detectors), policy }
    }

    /// Redacts `text`: forces the terms of the blocklist, asks the detectors
    /// about what that leaves, drops the detections that meet a term of the
    /// allowlist, and masks the others.
    ///
    /// The empty text comes back as it is. Where nothing was forced and
    /// nothing is left to mask, the input itself comes back, borrowed;
    /// otherwise the result is a new string. Which spans are masked lies
    /// with the detectors: the result is the one that belongs to what they
    /// reported, and without detectors only the blocklist acts.
    pub fn redact<'a>(&self, text: &'a str) -> (out: Cow<'a, str>)
        ensures
            text@.len() == 0 ==> out is Borrowed,
            out is Borrowed ==> out@ == text@,
            text@.len() > 0 ==> exists|reported: Seq<Detection>|
                all_fit(reported, force_terms(text@, self.policy().blocklist)) && out@
                    == #[trigger] redacted(self.policy(), text@, reported) && (out is Borrowed
                    <==> unchanged(self.policy(), text@, reported)),
            text@.len() > 0 && self.detector_count() == 0 ==> out@ == force_terms(
                text@,
                self.policy().blocklist,
            ) && (out is Borrowed <==> !any_term_hits(text@, self.policy().blocklist)),
    {
        if text.is_empty() {
            return Cow::Borrowed(text);
        }
        let (working, applied) = self.apply_blocklist(text);
        let found = self.detector.detect(working.as_str());
        proof {
            let reported = choose|reported: Seq<Detection>|
                all_fit(reported, working@) && found@ == #[trigger] resolve(reported);
            assert(masked_text(self.policy(), working@, found@) == redacted(
                self.policy(),
                text@,
                reported,
            ));
            if self.detector_count() == 0 {
                assert(found@.filter(
                    clear_of(all_term_spans(working@, self.policy().allowlist)),
                ).len() == 0) by {
                    reveal(Seq::filter);
                }
            }
        }
        self.redact_detected(text, working, applied, found)
    }

    /// The last part of redaction, from the resolved detections on: `working`
    /// is what the blocklist left of `text`, `applied` says whether it
    /// changed anything, and `found` are the detections in `working`.
    ///
    /// Detections that meet a span of the allowlist are dropped. If none is
    /// left, the result is `text` itself where the blocklist changed nothing,
    /// and `working` where it did; otherwise the detections left are masked.
    pub fn redact_detected<'a>(
        &self,
        text: &'a str,
        working: String,
        applied: bool,
        found: Vec<Detection>,
    ) -> (out: Cow<'a, str>)
        requires
            all_fit(found@, working@),
            sorted_disjoint(found@),
            !applied ==> working@ == text@,
        ensures
            out@ == masked_text(self.policy(), working@, found@),
            out is Borrowed <==> !applied && !any_left(self.policy(), working@, found@),
            out is Borrowed ==> out@ == text@,
    {
        let ghost all = found@;
        let spans = self.find_allowlist_spans(working.as_str());
        let kept = drop_protected(found, &spans);
        if kept.len() == 0 {
            if !applied {
                return Cow::Borrowed(text);
            }
            return Cow::Owned(working);
        }
        proof {
            assert forall|i: int| 0 <= i < kept@.len() implies (#[trigger] kept@[i]).fits(
                working@,
            ) by {
                let at = choose|at: int| 0 <= at < all.len() && all[at] == kept@[i];
                assert(all[at].fits(working@));
            }
        }
        Cow::Owned(self.apply_redactions(working.as_str(), kept.as_slice()))
    }

    /// `text` with each of the detections replaced by the masked form of its
    /// matched text, and everything between them copied.
    pub fn apply_redactions(&self, text: &str, detections: &[Detection]) -> (rebuilt: String)
        requires
            all_fit(detections@, text@),
            sorted_disjoint(detections@),
        ensures
            rebuilt@ == splice(text@, detections@, 0),
    {
        let total = byte_length(text);
        let mut rebuilt = String::new();
        let mut last: usize = 0;
        let mut i: usize = 0;
        proof {
            encode_utf8_valid_utf8(text@);
            is_char_boundary_start_end_of_seq(encode_utf8(text@));
            assert(detections@.skip(0) =~= detections@);
            assert(rebuilt@ + splice(text@, detections@, 0) =~= splice(text@, detections@, 0));
        }
        while i < detections.len()
            invariant
                i <= detections.len(),
                total == byte_len(text@),
                all_fit(detections@, text@),
                sorted_disjoint(detections@),
                on_boundary(text@, last as int),
                on_boundary(text@, total as int),
                forall|j: int| i <= j < detections@.len() ==> last <= (#[trigger] detections@[j]).start,
                rebuilt@ + splice(text@, detections@.skip(i as int), last as int) == splice(
                    text@,
                    detections@,
                    0,
                ),
            decreases detections.len() - i,
        {
            let d = &detections[i];
            let ghost before = rebuilt@;
            proof {
                assert(d.fits(text@));
                assert(detections@.skip(i as int)[0] == *d);
                assert(detections@.skip(i as int).drop_first() =~= detections@.skip(i + 1));
            }
            let gap = slice_bytes(text, last, d.start);
            rebuilt.append(gap);
            let masked = self.redact_structured(d.original.as_str(), d.pii_type);
            rebuilt.append(masked.as_str());
            proof {
                assert((before + gap@ + masked@) + splice(
                    text@,
                    detections@.skip(i + 1),
                    d.end as int,
                ) =~= before + splice(text@, detections@.skip(i as int), last as int));
            }
            last = d.end;
            i = i + 1;
        }
        let tail = slice_bytes(text, last, total);
        rebuilt.append(tail);
        proof {
            assert(detections@.skip(detections@.len() as int) =~= Seq::<Detection>::empty());
        }
        rebuilt
    }

    /// What stands in the output for a match of the given category.
    pub fn redact_structured(&self, original: &str, pii_type: PiiType) -> (masked: String)
        ensures
            masked@ == mask(original@, pii_type),
    {
        match pii_type {
            PiiType::Email => self.redact_email_structured(original),
            PiiType::PhoneNumber => self.redact_phone_structured(original),
            PiiType::Ssn => self.redact_ssn_structured(original),
            PiiType::CreditCard => self.redact_credit_card_structured(original),
            PiiType::IpAddressV4 | PiiType::IpAddressV6 => {
                let mut masked = String::new();
                append_blocks(&mut masked, byte_length(original));
                proof {
                    assert(Seq::<char>::empty() + mask_all(original@) =~= mask_all(original@));
                }
                masked
            },
        }
    }

    /// An address with the characters before the `@` blocked out but for
    /// dots, and of what follows the `@` only the last label kept.
    pub fn redact_email_structured(&self, email: &str) -> (masked: String)
        ensures
            masked@ == mask_email(email@),
    {
        let chars = to_chars(email);
        let total = byte_length(email);
        let mut masked = String::new();
        let mut at: usize = 0;
        while at < chars.len() && chars[at] != '@'
            invariant
                at <= chars.len(),
                forall|j: int| 0 <= j < at ==> chars@[j] != '@',
            decreases chars.len() - at,
        {
            at = at + 1;
        }
        if at == chars.len() {
            proof {
                lemma_no_index(chars@, '@');
                assert(Seq::<char>::empty() + mask_all(email@) =~= mask_all(email@));
            }
            append_blocks(&mut masked, total);
            return masked;
        }
        let ghost local = chars@.take(at as int);
        let ghost domain = chars@.skip(at + 1);
        proof {
            lemma_first_index(chars@, '@', at as int);
        }
        let mut i: usize = 0;
        while i < at
            invariant
                i <= at < chars.len(),
                local == chars@.take(at as int),
                masked@ == mask_local(local).take(i as int),
            decreases at - i,
        {
            proof {
                assert(mask_local(local).take(i as int).push(mask_local(local)[i as int])
                    =~= mask_local(local).take(i + 1));
            }
            if chars[i] == '.' {
                append_char(&mut masked, '.');
            } else {
                append_char(&mut masked, BLOCK);
            }
            i = i + 1;
        }
        proof {
            assert(mask_local(local).take(at as int) =~= mask_local(local));
        }
        append_char(&mut masked, '@');
        let first: usize = at + 1;
        let mut dot: usize = chars.len();
        while dot > first && chars[dot - 1] != '.'
            invariant
                first <= dot <= chars.len(),
                forall|j: int| dot <= j < chars.len() ==> chars@[j] != '.',
            decreases dot,
        {
            dot = dot - 1;
        }
        if dot > first {
            let run = range_byte_length(&chars, first, dot - 1);
            append_blocks(&mut masked, run);
            append_char(&mut masked, '.');
            append_range(&mut masked, &chars, dot, chars.len());
            proof {
                let found = dot - 1 - first;
                assert(domain[found] == chars@[dot - 1]);
                assert forall|j: int| found < j < domain.len() implies domain[j] != '.' by {
                    assert(domain[j] == chars@[first + j]);
                }
                lemma_last_index(domain, '.', found);
                assert(domain.take(found) =~= chars@.subrange(first as int, dot - 1));
                assert(domain.skip(found + 1) =~= chars@.subrange(
                    dot as int,
                    chars@.len() as int,
                ));
                assert(masked@ =~= mask_local(local) + seq!['@'] + mask_domain(domain));
            }
        } else {
            let run = range_byte_length(&chars, first, chars.len());
            append_blocks(&mut masked, run);
            proof {
                assert forall|j: int| 0 <= j < domain.len() implies domain[j] != '.' by {
                    assert(domain[j] == chars@[first + j]);
                }
                lemma_no_index(domain, '.');
                assert(domain =~= chars@.subrange(first as int, chars@.len() as int));
                assert(masked@ =~= mask_local(local) + seq!['@'] + mask_domain(domain));
            }
        }
        masked
    }

    /// A phone number with its digits blocked out and its separators kept.
    pub fn redact_phone_structured(&self, phone: &str) -> (masked: String)
        ensures
            masked@ == mask_digits(phone@),
    {
        let mut masked = String::new();
        for c in it: phone.chars()
            invariant
                it.seq() == phone@,
                masked@ == mask_digits(phone@).take(it.index() as int),
        {
            proof {
                assert(mask_digits(phone@).take(it.index() as int).push(
                    mask_digits(phone@)[it.index() as int],
                ) =~= mask_digits(phone@).take(it.index() + 1));
            }
            if digit(c) {
                append_char(&mut masked, BLOCK);
            } else {
                append_char(&mut masked, c);
            }
        }
        proof {
            assert(mask_digits(phone@).take(phone@.len() as int) =~= mask_digits(phone@));
        }
        masked
    }

    /// A social security number with its digits blocked out and its
    /// separators kept.
    pub fn redact_ssn_structured(&self, ssn: &str) -> (masked: String)
        ensures
            masked@ == mask_digits(ssn@),
    {
        self.redact_phone_structured(ssn)
    }

    /// A card number of which only the last four digits are kept, with its
    /// separators.
    pub fn redact_credit_card_structured(&self, cc: &str) -> (masked: String)
        ensures
            masked@ == mask_card(cc@),
    {
        let chars = to_chars(cc);
        let mut digits: usize = 0;
        let mut at: usize = 0;
        proof {
            assert(chars@.take(0) =~= Seq::<char>::empty());
        }
        while at < chars.len()
            invariant
                at <= chars.len(),
                digits == digit_count(chars@.take(at as int)),
                digits <= at,
            decreases chars.len() - at,
        {
            proof {
                lemma_digit_count_step(chars@, at as int);
            }
            if digit(chars[at]) {
                digits = digits + 1;
            }
            at = at + 1;
        }
        proof {
            assert(chars@.take(chars@.len() as int) =~= chars@);
        }
        let mut masked = String::new();
        if digits < 4 {
            append_blocks(&mut masked, byte_length(cc));
            proof {
                assert(Seq::<char>::empty() + mask_all(cc@) =~= mask_all(cc@));
            }
            return masked;
        }
        let mut seen: usize = 0;
        let mut i: usize = 0;
        proof {
            assert(chars@.take(0) =~= Seq::<char>::empty());
        }
        while i < chars.len()
            invariant
                i <= chars.len(),
                chars@ == cc@,
                digits == digit_count(chars@),
                digits >= 4,
                seen == digit_count(chars@.take(i as int)),
                seen <= i,
                masked@ == mask_card(cc@).take(i as int),
            decreases chars.len() - i,
        {
            proof {
                lemma_digit_count_step(chars@, i as int);
                lemma_digit_count_split(chars@, i as int);
                assert(mask_card(cc@).take(i as int).push(mask_card(cc@)[i as int]) =~= mask_card(
                    cc@,
                ).take(i + 1));
            }
            let c = chars[i];
            if digit(c) {
                seen = seen + 1;
                if seen > digits - 4 {
                    append_char(&mut masked, c);
                } else {
                    append_char(&mut masked, BLOCK);
                }
            } else {
                append_char(&mut masked, c);
            }
            i = i + 1;
        }
        proof {
            assert(mask_card(cc@).take(cc@.len() as int) =~= mask_card(cc@));
        }
        masked
    }

    /// The text that the blocklist leaves of `text`, and whether any of its
    /// terms stood in the text that it met.
    pub fn apply_blocklist(&self, text: &str) -> (forced: (String, bool))
        ensures
            forced.0@ == force_terms(text@, self.policy().blocklist),
            forced.1 == any_term_hits(text@, self.policy().blocklist),
            !forced.1 ==> forced.0@ == text@,
    {
        let terms = self.policy.blocklist_terms();
        let ghost list = terms_view(terms@);
        let mut working = to_chars(text);
        let mut applied = false;
        let mut i: usize = 0;
        proof {
            assert(list.skip(0) =~= list);
        }
        while i < terms.len()
            invariant
                i <= terms.len(),
                list == terms_view(terms@),
                force_terms(working@, list.skip(i as int)) == force_terms(text@, list),
                (applied || any_term_hits(working@, list.skip(i as int))) == any_term_hits(
                    text@,
                    list,
                ),
                !applied ==> working@ == text@,
            decreases terms.len() - i,
        {
            let term = to_chars(terms[i].as_str());
            let run = byte_length(terms[i].as_str());
            proof {
                assert(list.skip(i as int)[0] == term@);
                assert(list.skip(i as int).drop_first() =~= list.skip(i + 1));
            }
            if contains(&working, &term) {
                working = block_out(&working, &term, run);
                applied = true;
            }
            i = i + 1;
        }
        (to_text(&working), applied)
    }

    /// The byte spans of `text` in which a term of the allowlist stands: one
    /// span for every position at which a term occurs, term by term and from
    /// left to right, whether or not occurrences overlap.
    pub fn find_allowlist_spans(&self, text: &str) -> (spans: Vec<(usize, usize)>)
        ensures
            spans_view(spans@) == all_term_spans(text@, self.policy().allowlist),
    {
        let terms = self.policy.allowlist_terms();
        let ghost list = terms_view(terms@);
        let chars = to_chars(text);
        let total = byte_length(text);
        let mut spans: Vec<(usize, usize)> = Vec::new();
        let mut i: usize = 0;
        proof {
            assert(spans_view(spans@) =~= Seq::<(int, int)>::empty());
            assert(list.take(0) =~= Seq::<Seq<char>>::empty());
        }
        while i < terms.len()
            invariant
                i <= terms.len(),
                list == terms_view(terms@),
                chars@ == text@,
                byte_len(text@) <= usize::MAX,
                spans_view(spans@) == all_term_spans(text@, list.take(i as int)),
            decreases terms.len() - i,
        {
            let term = to_chars(terms[i].as_str());
            let run = byte_length(terms[i].as_str());
            proof {
                assert(list.take(i + 1).last() == term@);
                assert(list.take(i + 1).drop_last() =~= list.take(i as int));
            }
            collect_spans(&chars, &term, run, &mut spans);
            i = i + 1;
        }
        proof {
            assert(list.take(list.len() as int) =~= list);
        }
        spans
    }
}

} // verus!
