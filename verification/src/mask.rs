use crate::text::{block_run, byte_len, BLOCK};
use crate::types::PiiType;
use vstd::prelude::*;

verus! {

/// `c` is one of the ASCII digits.
pub open spec fn is_digit(c: char) -> bool {
    '0' <= c && c <= '9'
}

/// The test for an ASCII digit, as a predicate on characters.
pub open spec fn digit_test() -> spec_fn(char) -> bool {
    |c: char| is_digit(c)
}

/// Number of ASCII digits in `text`.
pub open spec fn digit_count(text: Seq<char>) -> nat {
    text.filter(digit_test()).len()
}

/// As many blocks as `text` has bytes.
pub open spec fn mask_all(text: Seq<char>) -> Seq<char> {
    block_run(byte_len(text))
}

/// Every ASCII digit blocked out, every other character kept: the form of a
/// masked phone number or social security number.
pub open spec fn mask_digits(text: Seq<char>) -> Seq<char> {
    Seq::new(
        text.len(),
        |i: int|
            if is_digit(text[i]) {
                BLOCK
            } else {
                text[i]
            },
    )
}

/// Every ASCII digit but the last four blocked out, every other character
/// kept; with fewer than four digits, everything blocked out.
pub open spec fn mask_card(text: Seq<char>) -> Seq<char> {
    if digit_count(text) < 4 {
        mask_all(text)
    } else {
        Seq::new(
            text.len(),
            |i: int|
                if is_digit(text[i]) && digit_count(text.skip(i)) > 4 {
                    BLOCK
                } else {
                    text[i]
                },
        )
    }
}

/// The part of an address before the `@`: dots kept, every other character
/// blocked out.
pub open spec fn mask_local(local: Seq<char>) -> Seq<char> {
    Seq::new(
        local.len(),
        |i: int|
            if local[i] == '.' {
                '.'
            } else {
                BLOCK
            },
    )
}

/// The part of an address behind the `@`: what follows the last dot is kept,
/// and what stands before it becomes as many blocks as it has bytes. Without
/// a dot, everything is blocked out.
pub open spec fn mask_domain(domain: Seq<char>) -> Seq<char> {
    match domain.index_of_last('.') {
        Some(dot) => mask_all(domain.take(dot)) + seq!['.'] + domain.skip(dot + 1),
        None => mask_all(domain),
    }
}

/// An address split at its first `@`; without one, everything is blocked
/// out.
pub open spec fn mask_email(email: Seq<char>) -> Seq<char> {
    match email.index_of_first('@') {
        Some(at) => mask_local(email.take(at)) + seq!['@'] + mask_domain(email.skip(at + 1)),
        None => mask_all(email),
    }
}

/// What stands in the output for a match of the given category.
pub open spec fn mask(original: Seq<char>, pii_type: PiiType) -> Seq<char> {
    match pii_type {
        PiiType::Email => mask_email(original),
        PiiType::PhoneNumber => mask_digits(original),
        PiiType::Ssn => mask_digits(original),
        PiiType::CreditCard => mask_card(original),
        PiiType::IpAddressV4 => mask_all(original),
        PiiType::IpAddressV6 => mask_all(original),
    }
}

/// The position of the first `c`, where the characters before it are known
/// to differ from `c`.
pub proof fn lemma_first_index(text: Seq<char>, c: char, at: int)
    requires
        0 <= at < text.len(),
        text[at] == c,
        forall|j: int| 0 <= j < at ==> text[j] != c,
    ensures
        text.index_of_first(c) == Some(at),
{
    text.index_of_first_ensures(c);
    assert(text.contains(c));
}

/// The position of the last `c`, where the characters behind it are known
/// to differ from `c`.
pub proof fn lemma_last_index(text: Seq<char>, c: char, at: int)
    requires
        0 <= at < text.len(),
        text[at] == c,
        forall|j: int| at < j < text.len() ==> text[j] != c,
    ensures
        text.index_of_last(c) == Some(at),
{
    text.index_of_last_ensures(c);
    assert(text.contains(c));
}

/// A text in which `c` does not occur has no first and no last `c`.
pub proof fn lemma_no_index(text: Seq<char>, c: char)
    requires
        forall|j: int| 0 <= j < text.len() ==> text[j] != c,
    ensures
        text.index_of_first(c) is None,
        text.index_of_last(c) is None,
{
    text.index_of_first_ensures(c);
    text.index_of_last_ensures(c);
}

/// The digits before a position and those from it on are all the digits.
pub proof fn lemma_digit_count_split(text: Seq<char>, at: int)
    requires
        0 <= at <= text.len(),
    ensures
        digit_count(text.take(at)) + digit_count(text.skip(at)) == digit_count(text),
{
    assert(text.take(at) + text.skip(at) =~= text);
    Seq::filter_distributes_over_add(text.take(at), text.skip(at), digit_test());
}

/// Counting one character further adds one for a digit.
pub proof fn lemma_digit_count_step(text: Seq<char>, at: int)
    requires
        0 <= at < text.len(),
    ensures
        digit_count(text.take(at + 1)) == digit_count(text.take(at)) + if is_digit(text[at]) {
            1nat
        } else {
            0nat
        },
{
    assert(text.take(at + 1) =~= text.take(at).push(text[at]));
    text.take(at).lemma_filter_push(text[at], digit_test());
}

} // verus!
