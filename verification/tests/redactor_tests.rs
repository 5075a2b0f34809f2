use auvura_core::detector::{Detection, PiiDetector};
use auvura_core::policy::RedactionPolicy;
use auvura_core::redactor::{drop_protected, Redactor};
use auvura_core::types::PiiType;
use std::borrow::Cow;

// Minimal email detector
struct SimpleEmailDetector;

impl PiiDetector for SimpleEmailDetector {
    fn pii_type(&self) -> PiiType {
        PiiType::Email
    }

    fn detect<'a>(&self, text: &'a str) -> Vec<Detection> {
        let mut detections = Vec::new();
        for (start, _) in text.match_indices('@') {
            let word_start = text[..start]
                .rfind(|c: char| c.is_whitespace() || c == '<')
                .map_or(0, |i| i + 1);
            let word_end = text[start..]
                .find(|c: char| c.is_whitespace() || c == '>' || c == ',')
                .map_or(text.len(), |i| start + i);

            if word_end > word_start && word_end <= text.len() {
                detections.push(Detection {
                    pii_type: PiiType::Email,
                    start: word_start,
                    end: word_end,
                    original: text[word_start..word_end].to_string(),
                });
            }
        }
        detections
    }
}

// Looks for "###-##-####" without a digit before or behind it
struct SsnDetector;

impl PiiDetector for SsnDetector {
    fn pii_type(&self) -> PiiType {
        PiiType::Ssn
    }

    fn detect<'a>(&self, text: &'a str) -> Vec<Detection> {
        let mut detections = Vec::new();
        let bytes = text.as_bytes();
        for i in 0..bytes.len().saturating_sub(10) {
            if bytes[i].is_ascii_digit()
                && bytes[i + 1].is_ascii_digit()
                && bytes[i + 2].is_ascii_digit()
                && bytes[i + 3] == b'-'
                && bytes[i + 4].is_ascii_digit()
                && bytes[i + 5].is_ascii_digit()
                && bytes[i + 6] == b'-'
                && bytes[i + 7].is_ascii_digit()
                && bytes[i + 8].is_ascii_digit()
                && bytes[i + 9].is_ascii_digit()
                && bytes[i + 10].is_ascii_digit()
            {
                // Verify boundaries (not part of longer digit sequence)
                let start = i;
                let end = i + 11;
                if (start == 0 || !bytes[start - 1].is_ascii_digit())
                    && (end == bytes.len() || !bytes[end].is_ascii_digit())
                {
                    detections.push(Detection {
                        pii_type: PiiType::Ssn,
                        start,
                        end,
                        original: text[start..end].to_string(),
                    });
                }
            }
        }
        detections
    }
}

// Detects the one card number of the tests
struct CcDetector;

impl PiiDetector for CcDetector {
    fn pii_type(&self) -> PiiType {
        PiiType::CreditCard
    }

    fn detect<'a>(&self, text: &'a str) -> Vec<Detection> {
        if let Some(start) = text.find("4111 1111 1111 1111") {
            return vec![Detection {
                pii_type: PiiType::CreditCard,
                start,
                end: start + 19, // length of "4111 1111 1111 1111"
                original: "4111 1111 1111 1111".to_string(),
            }];
        }
        vec![]
    }
}

// Reports every run of ASCII digits as a phone number
struct DigitRunDetector;

impl PiiDetector for DigitRunDetector {
    fn pii_type(&self) -> PiiType {
        PiiType::PhoneNumber
    }

    fn detect<'a>(&self, text: &'a str) -> Vec<Detection> {
        let bytes = text.as_bytes();
        let mut detections = Vec::new();
        let mut i = 0;
        while i < bytes.len() {
            if bytes[i].is_ascii_digit() {
                let start = i;
                while i < bytes.len() && bytes[i].is_ascii_digit() {
                    i += 1;
                }
                detections.push(Detection {
                    pii_type: PiiType::PhoneNumber,
                    start,
                    end: i,
                    original: text[start..i].to_string(),
                });
            } else {
                i += 1;
            }
        }
        detections
    }
}

fn plain() -> Redactor {
    Redactor::new(vec![], RedactionPolicy::default())
}

fn blocks(count: usize) -> String {
    "█".repeat(count)
}

fn found(pii_type: PiiType, start: usize, original: &str) -> Detection {
    Detection { pii_type, start, end: start + original.len(), original: original.to_string() }
}

#[test]
fn test_zero_copy_when_no_pii() {
    let detector = SimpleEmailDetector;
    let policy = RedactionPolicy::default();
    let redactor = Redactor::new(vec![Box::new(detector)], policy);

    let input = "Hello world";
    let result = redactor.redact(input);
    assert!(matches!(result, Cow::Borrowed(_)));
    assert_eq!(result, "Hello world");
}

#[test]
fn test_structured_email_redaction() {
    let detector = SimpleEmailDetector;
    let policy = RedactionPolicy::default();
    let redactor = Redactor::new(vec![Box::new(detector)], policy);

    // "john.doe" = 4 chars (john) + '.' + 3 chars (doe) = 8 chars total
    // Redaction: "████.███" (4 █ + '.' + 3 █)
    // "example.com" → "███████.com" (7 █ for "example" + preserved TLD)
    let input = "Contact john.doe@example.com for help";
    let result = redactor.redact(input);
    assert_eq!(result, "Contact ████.███@███████.com for help");
}

#[test]
fn redactor_test_allowlist_prevents_redaction() {
    let detector = SimpleEmailDetector;
    let policy = RedactionPolicy::builder()
        .with_allowlist(vec!["support@example.com"])
        .build();
    let redactor = Redactor::new(vec![Box::new(detector)], policy);

    let input = "Email support@example.com or john.doe@example.com";
    let result = redactor.redact(input);
    assert!(result.contains("support@example.com"));
    assert!(result.contains("@███████.com")); // john.doe redacted
}

#[test]
fn test_blocklist_forces_redaction() {
    let detector = SimpleEmailDetector;
    let policy = RedactionPolicy::builder()
        .with_blocklist(vec!["CONFIDENTIAL"])
        .build();
    let redactor = Redactor::new(vec![Box::new(detector)], policy);

    let input = "Mark this CONFIDENTIAL";
    let result = redactor.redact(input);
    assert_eq!(result, "Mark this ████████████");
}

#[test]
fn test_ssn_structured_redaction() {
    let policy = RedactionPolicy::default();
    let redactor = Redactor::new(vec![Box::new(SsnDetector)], policy);

    let input = "SSN: 123-45-6789";
    let result = redactor.redact(input);
    assert_eq!(result, "SSN: ███-██-████");
}

#[test]
fn test_credit_card_last_four() {
    let policy = RedactionPolicy::default();
    let redactor = Redactor::new(vec![Box::new(CcDetector)], policy);

    let input = "Card: 4111 1111 1111 1111";
    let result = redactor.redact(input);
    assert_eq!(result, "Card: ████ ████ ████ 1111");
}

#[test]
fn the_empty_text_comes_back_borrowed() {
    let redactor = Redactor::new(
        vec![Box::new(SimpleEmailDetector)],
        RedactionPolicy::builder().with_blocklist(vec!["", "x"]).build(),
    );
    let input = "";
    let result = redactor.redact(input);
    assert!(matches!(result, Cow::Borrowed(_)));
    assert_eq!(result, "");
}

#[test]
fn an_untouched_text_is_the_input_itself() {
    let redactor = Redactor::new(
        vec![Box::new(SimpleEmailDetector), Box::new(SsnDetector)],
        RedactionPolicy::builder().with_blocklist(vec!["CONFIDENTIAL"]).build(),
    );
    let input = "Nothing to see here, näive readers";
    match redactor.redact(input) {
        Cow::Borrowed(same) => assert!(std::ptr::eq(same, input)),
        Cow::Owned(_) => panic!("the text was copied"),
    }
}

#[test]
fn a_redacted_text_is_a_new_string() {
    let redactor = Redactor::new(vec![Box::new(SsnDetector)], RedactionPolicy::default());
    let result = redactor.redact("SSN: 123-45-6789");
    assert!(matches!(result, Cow::Owned(_)));
}

#[test]
fn a_full_email_is_masked_but_for_dots_and_last_label() {
    assert_eq!(plain().redact_email_structured("john.doe@example.com"), "████.███@███████.com");
    assert_eq!(
        plain().redact_structured("john.doe@example.com", PiiType::Email),
        "████.███@███████.com"
    );
}

#[test]
fn an_email_without_at_sign_is_blocked_out_byte_for_byte() {
    assert_eq!(plain().redact_email_structured("not-an-email"), blocks(12));
    assert_eq!(plain().redact_email_structured("é.x"), blocks(4));
    assert_eq!(plain().redact_email_structured(""), "");
}

#[test]
fn a_domain_without_dot_is_blocked_out() {
    assert_eq!(plain().redact_email_structured("user@localhost"), "████@█████████");
    assert_eq!(plain().redact_email_structured("@"), "@");
    assert_eq!(plain().redact_email_structured("a@"), "█@");
}

#[test]
fn only_the_last_label_of_a_domain_is_kept() {
    assert_eq!(
        plain().redact_email_structured("a.b@mail.example.co.uk"),
        format!("█.█@{}.uk", blocks(15))
    );
    assert_eq!(plain().redact_email_structured("a@b."), "█@█.");
    assert_eq!(plain().redact_email_structured("a@.com"), "█@.com");
}

#[test]
fn an_email_is_split_at_its_first_at_sign() {
    assert_eq!(plain().redact_email_structured("a@b@c.d"), "█@███.d");
}

#[test]
fn an_email_counts_characters_before_and_bytes_behind_the_at_sign() {
    assert_eq!(plain().redact_email_structured("jöhn@x.de"), "████@█.de");
    assert_eq!(plain().redact_email_structured("a@bücher.de"), format!("█@{}.de", blocks(7)));
    assert_eq!(plain().redact_email_structured("a@b.çom"), "█@█.çom");
}

#[test]
fn a_phone_number_keeps_its_separators() {
    assert_eq!(plain().redact_phone_structured("+1 (555) 123-4567"), "+█ (███) ███-████");
    assert_eq!(plain().redact_structured("555 0100", PiiType::PhoneNumber), "███ ████");
    assert_eq!(plain().redact_phone_structured(""), "");
}

#[test]
fn only_ascii_digits_are_blocked_out() {
    assert_eq!(plain().redact_phone_structured("٣4 é/:"), "٣█ é/:");
}

#[test]
fn a_social_security_number_keeps_its_hyphens() {
    assert_eq!(plain().redact_ssn_structured("123-45-6789"), "███-██-████");
    assert_eq!(plain().redact_structured("123-45-6789", PiiType::Ssn), "███-██-████");
}

#[test]
fn a_card_number_keeps_its_last_four_digits() {
    assert_eq!(
        plain().redact_credit_card_structured("4111 1111 1111 1111"),
        "████ ████ ████ 1111"
    );
    assert_eq!(plain().redact_credit_card_structured("12345"), "█2345");
    assert_eq!(plain().redact_credit_card_structured("1234-5678-9"), "████-█678-9");
    assert_eq!(
        plain().redact_structured("4111-1111-1111-1111", PiiType::CreditCard),
        "████-████-████-1111"
    );
}

#[test]
fn a_card_number_of_four_digits_stays_as_it_is() {
    assert_eq!(plain().redact_credit_card_structured("1-2-3-4"), "1-2-3-4");
    assert_eq!(plain().redact_credit_card_structured("1234"), "1234");
}

#[test]
fn a_card_number_with_fewer_than_four_digits_is_blocked_out() {
    assert_eq!(plain().redact_credit_card_structured("12-3"), blocks(4));
    assert_eq!(plain().redact_credit_card_structured("é1"), blocks(3));
    assert_eq!(plain().redact_credit_card_structured("abc"), blocks(3));
    assert_eq!(plain().redact_credit_card_structured(""), "");
}

#[test]
fn an_ip_address_is_blocked_out_byte_for_byte() {
    assert_eq!(plain().redact_structured("192.168.0.1", PiiType::IpAddressV4), blocks(11));
    assert_eq!(plain().redact_structured("::1", PiiType::IpAddressV6), blocks(3));
    assert_eq!(plain().redact_structured("é", PiiType::IpAddressV4), blocks(2));
    assert_eq!(plain().redact_structured("", PiiType::IpAddressV6), "");
}

#[test]
fn the_blocklist_acts_without_any_detector() {
    let redactor = Redactor::new(
        vec![],
        RedactionPolicy::builder().with_blocklist(vec!["CONFIDENTIAL"]).build(),
    );
    let result = redactor.redact("Mark this CONFIDENTIAL");
    assert!(matches!(result, Cow::Owned(_)));
    assert_eq!(result, "Mark this ████████████");
    assert_eq!(result.chars().filter(|c| *c == '█').count(), "CONFIDENTIAL".len());
}

#[test]
fn a_blocked_term_becomes_one_block_per_byte() {
    let redactor = Redactor::new(
        vec![],
        RedactionPolicy::builder().with_blocklist(vec!["näive"]).build(),
    );
    assert_eq!(redactor.redact("a näive idea"), format!("a {} idea", blocks(6)));
    let (forced, applied) = redactor.apply_blocklist("näive näive");
    assert_eq!(forced, format!("{} {}", blocks(6), blocks(6)));
    assert!(applied);
}

#[test]
fn blocked_occurrences_are_taken_from_left_to_right() {
    let redactor = Redactor::new(
        vec![],
        RedactionPolicy::builder().with_blocklist(vec!["aa"]).build(),
    );
    assert_eq!(redactor.apply_blocklist("aaa"), ("██a".to_string(), true));
    assert_eq!(redactor.apply_blocklist("aaaa"), ("████".to_string(), true));
    assert_eq!(redactor.apply_blocklist("baab aa"), ("b██b ██".to_string(), true));
}

#[test]
fn each_blocked_term_meets_what_the_one_before_left() {
    let redactor = Redactor::new(
        vec![],
        RedactionPolicy::builder().with_blocklist(vec!["ab", "█"]).build(),
    );
    assert_eq!(redactor.apply_blocklist("xaby"), (format!("x{}y", blocks(6)), true));
    let other_order = Redactor::new(
        vec![],
        RedactionPolicy::builder().with_blocklist(vec!["█", "ab"]).build(),
    );
    assert_eq!(other_order.apply_blocklist("xaby"), ("x██y".to_string(), true));
}

#[test]
fn a_blocklist_that_meets_nothing_changes_nothing() {
    let redactor = Redactor::new(
        vec![],
        RedactionPolicy::builder().with_blocklist(vec!["secret", "hidden"]).build(),
    );
    assert_eq!(redactor.apply_blocklist("an open book"), ("an open book".to_string(), false));
    assert!(matches!(redactor.redact("an open book"), Cow::Borrowed(_)));
    assert_eq!(plain().apply_blocklist("abc"), ("abc".to_string(), false));
}

#[test]
fn the_empty_blocked_term_changes_no_character_but_counts_as_met() {
    let redactor = Redactor::new(
        vec![],
        RedactionPolicy::builder().with_blocklist(vec![""]).build(),
    );
    assert_eq!(redactor.apply_blocklist("abc"), ("abc".to_string(), true));
    let result = redactor.redact("abc");
    assert!(matches!(result, Cow::Owned(_)));
    assert_eq!(result, "abc");
}

#[test]
fn a_blocked_term_can_also_be_detected() {
    let redactor = Redactor::new(
        vec![Box::new(SsnDetector)],
        RedactionPolicy::builder().with_blocklist(vec!["Jane"]).build(),
    );
    assert_eq!(redactor.redact("Jane: 123-45-6789"), "████: ███-██-████");
}

#[test]
fn allowlist_spans_are_byte_offsets() {
    let redactor = Redactor::new(
        vec![],
        RedactionPolicy::builder().with_allowlist(vec!["support@example.com", "é"]).build(),
    );
    assert_eq!(
        redactor.find_allowlist_spans("é support@example.com é"),
        vec![(3, 22), (0, 2), (23, 25)]
    );
    assert_eq!(redactor.find_allowlist_spans("nothing"), vec![]);
    assert_eq!(plain().find_allowlist_spans("support@example.com"), vec![]);
}

#[test]
fn overlapping_occurrences_of_an_allowed_term_each_have_their_span() {
    let redactor = Redactor::new(
        vec![],
        RedactionPolicy::builder().with_allowlist(vec!["aa"]).build(),
    );
    assert_eq!(redactor.find_allowlist_spans("aaa"), vec![(0, 2), (1, 3)]);
    assert_eq!(redactor.find_allowlist_spans("aaaaa"), vec![(0, 2), (1, 3), (2, 4), (3, 5)]);
    assert_eq!(redactor.find_allowlist_spans("aa"), vec![(0, 2)]);
    assert_eq!(redactor.find_allowlist_spans("a"), vec![]);

    let weighted = Redactor::new(
        vec![],
        RedactionPolicy::builder().with_allowlist(vec!["éaé", "aba"]).build(),
    );
    assert_eq!(
        weighted.find_allowlist_spans("éaéaé ababa"),
        vec![(0, 5), (3, 8), (9, 12), (11, 14)]
    );
}

#[test]
fn a_detection_inside_a_later_overlapping_occurrence_is_not_masked() {
    let redactor = Redactor::new(
        vec![],
        RedactionPolicy::builder().with_allowlist(vec!["aa"]).build(),
    );
    // byte 2 lies in the occurrence at 1..3 only
    let result = redactor.redact_detected(
        "aaa",
        "aaa".to_string(),
        false,
        vec![found(PiiType::IpAddressV4, 2, "a")],
    );
    assert!(matches!(result, Cow::Borrowed(_)));
    assert_eq!(result, "aaa");

    // behind the last occurrence nothing is protected
    let behind = redactor.redact_detected(
        "aaab",
        "aaab".to_string(),
        false,
        vec![found(PiiType::IpAddressV4, 3, "b")],
    );
    assert_eq!(behind, "aaa█");
}

#[test]
fn the_empty_allowed_term_occurs_between_all_characters() {
    let redactor = Redactor::new(
        vec![],
        RedactionPolicy::builder().with_allowlist(vec![""]).build(),
    );
    assert_eq!(redactor.find_allowlist_spans("aé"), vec![(0, 0), (1, 1), (3, 3)]);
    assert_eq!(redactor.find_allowlist_spans(""), vec![(0, 0)]);
}

#[test]
fn an_allowed_term_is_kept_and_another_match_is_masked() {
    let redactor = Redactor::new(
        vec![Box::new(SimpleEmailDetector)],
        RedactionPolicy::builder().with_allowlist(vec!["support@example.com"]).build(),
    );
    assert_eq!(
        redactor.redact("Email support@example.com or john.doe@example.com"),
        "Email support@example.com or ████.███@███████.com"
    );
}

#[test]
fn a_text_whose_matches_are_all_allowed_is_the_input_itself() {
    let redactor = Redactor::new(
        vec![Box::new(SimpleEmailDetector)],
        RedactionPolicy::builder().with_allowlist(vec!["support@example.com"]).build(),
    );
    let result = redactor.redact("Email support@example.com today");
    assert!(matches!(result, Cow::Borrowed(_)));
    assert_eq!(result, "Email support@example.com today");
}

#[test]
fn a_detection_that_only_touches_an_allowed_span_is_masked() {
    let redactor = Redactor::new(
        vec![Box::new(DigitRunDetector)],
        RedactionPolicy::builder().with_allowlist(vec!["ext. "]).build(),
    );
    // the allowed span ends where the digits start
    assert_eq!(redactor.redact("ext. 4711"), "ext. ████");
    let partly = Redactor::new(
        vec![Box::new(DigitRunDetector)],
        RedactionPolicy::builder().with_allowlist(vec!["ext. 4"]).build(),
    );
    // one byte of the digits lies in the allowed span
    assert_eq!(partly.redact("ext. 4711 and 12"), "ext. 4711 and ██");
}

#[test]
fn drop_protected_keeps_what_meets_no_span() {
    let detections = vec![
        found(PiiType::PhoneNumber, 0, "12"),
        found(PiiType::PhoneNumber, 5, "345"),
        found(PiiType::PhoneNumber, 10, "6"),
        found(PiiType::PhoneNumber, 20, "7890"),
    ];
    let kept = drop_protected(detections, &vec![(2, 6), (11, 20), (24, 30)]);
    let starts: Vec<usize> = kept.iter().map(|d| d.start).collect();
    assert_eq!(starts, vec![0, 10, 20]);
    assert_eq!(kept[2].original, "7890");
    let all = drop_protected(vec![found(PiiType::Ssn, 3, "123")], &vec![]);
    assert_eq!(all.len(), 1);
}

#[test]
fn detections_are_masked_and_the_rest_is_copied() {
    let text = "é: 123-45-6789, à john.doe@example.com!";
    let detections = vec![
        found(PiiType::Ssn, 4, "123-45-6789"),
        found(PiiType::Email, 20, "john.doe@example.com"),
    ];
    assert_eq!(&text[4..15], "123-45-6789");
    assert_eq!(&text[20..40], "john.doe@example.com");
    assert_eq!(
        plain().apply_redactions(text, &detections),
        "é: ███-██-████, à ████.███@███████.com!"
    );
}

#[test]
fn apply_redactions_without_detections_copies_the_text() {
    assert_eq!(plain().apply_redactions("plain é text", &[]), "plain é text");
    assert_eq!(plain().apply_redactions("", &[]), "");
}

#[test]
fn apply_redactions_masks_adjacent_detections_and_the_ends() {
    let detections = vec![found(PiiType::PhoneNumber, 0, "12"), found(PiiType::IpAddressV4, 2, "::")];
    assert_eq!(plain().apply_redactions("12::", &detections), "████");
}

#[test]
fn the_masked_form_comes_from_the_matched_text_of_the_detection() {
    let detections = vec![Detection {
        pii_type: PiiType::CreditCard,
        start: 6,
        end: 10,
        original: "4111 1111 1111 1111".to_string(),
    }];
    assert_eq!(plain().apply_redactions("Card: here.", &detections), "Card: ████ ████ ████ 1111.");
}

#[test]
fn redact_detected_chooses_between_input_working_text_and_rebuilt_text() {
    let redactor = Redactor::new(
        vec![],
        RedactionPolicy::builder().with_allowlist(vec!["555"]).build(),
    );
    let text = "call 555 or 911";
    let untouched = redactor.redact_detected(
        text,
        text.to_string(),
        false,
        vec![found(PiiType::PhoneNumber, 5, "555")],
    );
    assert!(matches!(untouched, Cow::Borrowed(_)));
    assert_eq!(untouched, "call 555 or 911");

    let forced = redactor.redact_detected(
        "tell 555 or 911",
        "████ 555 or 911".to_string(),
        true,
        vec![found(PiiType::PhoneNumber, 13, "555")],
    );
    assert!(matches!(forced, Cow::Owned(_)));
    assert_eq!(forced, "████ 555 or 911");

    let masked = redactor.redact_detected(
        text,
        text.to_string(),
        false,
        vec![found(PiiType::PhoneNumber, 5, "555"), found(PiiType::PhoneNumber, 12, "911")],
    );
    assert!(matches!(masked, Cow::Owned(_)));
    assert_eq!(masked, "call 555 or ███");
}

#[test]
fn overlapping_detections_of_two_detectors_are_resolved_before_masking() {
    let redactor = Redactor::new(
        vec![Box::new(DigitRunDetector), Box::new(SsnDetector)],
        RedactionPolicy::default(),
    );
    assert_eq!(redactor.redact("id 123-45-6789 x 42"), "id ███-██-████ x ██");
}

#[test]
fn text_between_multibyte_characters_is_copied_whole() {
    let redactor = Redactor::new(
        vec![Box::new(DigitRunDetector), Box::new(SimpleEmailDetector)],
        RedactionPolicy::builder().with_blocklist(vec!["Zoë"]).build(),
    );
    assert_eq!(
        redactor.redact("Zoë → 42 ← zoë@bücher.de ✓"),
        format!("{} → ██ ← ███@{}.de ✓", blocks(4), blocks(7))
    );
}

const SAMPLES: [&str; 10] = [
    "",
    "a",
    "aaa",
    "aaaaa",
    "abcabcabc",
    "näive näive",
    "é█é█",
    "The quick brown fox",
    "ababababa",
    "██ and █",
];

const TERMS: [&str; 9] = ["", "a", "aa", "abc", "aba", "näive", "é", "█", "fox"];

#[test]
fn allowlist_spans_are_those_of_every_position_at_which_the_term_stands() {
    for text in SAMPLES {
        for term in TERMS {
            let redactor = Redactor::new(
                vec![],
                RedactionPolicy::builder().with_allowlist(vec![term]).build(),
            );
            let mut expected: Vec<(usize, usize)> = Vec::new();
            for start in 0..=text.len() {
                if text.is_char_boundary(start) && text[start..].starts_with(term) {
                    expected.push((start, start + term.len()));
                }
            }
            assert_eq!(redactor.find_allowlist_spans(text), expected);
        }
    }
}

#[test]
fn allowlist_spans_hold_every_span_of_the_standard_search() {
    for text in SAMPLES {
        for term in TERMS {
            let redactor = Redactor::new(
                vec![],
                RedactionPolicy::builder().with_allowlist(vec![term]).build(),
            );
            let spans = redactor.find_allowlist_spans(text);
            for (start, _) in text.match_indices(term) {
                assert!(spans.contains(&(start, start + term.len())));
            }
        }
    }
}

#[test]
fn the_blocklist_replaces_as_the_standard_replace_does() {
    for text in SAMPLES {
        for term in TERMS {
            let redactor = Redactor::new(
                vec![],
                RedactionPolicy::builder().with_blocklist(vec![term]).build(),
            );
            let expected = text.replace(term, &"█".repeat(term.len()));
            assert_eq!(redactor.apply_blocklist(text), (expected, text.contains(term)));
        }
    }
}

#[test]
fn two_blocked_terms_act_one_after_the_other() {
    for text in SAMPLES {
        for first in TERMS {
            for second in TERMS {
                let redactor = Redactor::new(
                    vec![],
                    RedactionPolicy::builder().with_blocklist(vec![first, second]).build(),
                );
                let mut expected = text.to_string();
                let mut applied = false;
                for term in [first, second] {
                    if expected.contains(term) {
                        expected = expected.replace(term, &"█".repeat(term.len()));
                        applied = true;
                    }
                }
                assert_eq!(redactor.apply_blocklist(text), (expected, applied));
            }
        }
    }
}
