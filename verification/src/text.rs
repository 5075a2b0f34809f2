use vstd::prelude::*;
use vstd::utf8::*;

verus! {

/// The character that stands for a masked character or byte: U+2588, the
/// full block.
pub const BLOCK: char = '\u{2588}';

/// `count` block characters.
pub open spec fn block_run(count: nat) -> Seq<char> {
    Seq::new(count, |i: int| BLOCK)
}

/// Number of bytes of the UTF-8 encoding of `c`.
pub open spec fn char_width(c: char) -> nat {
    encode_scalar(c as u32).len()
}

/// Number of bytes of the UTF-8 encoding of `text`.
pub open spec fn byte_len(text: Seq<char>) -> nat {
    encode_utf8(text).len()
}

/// The byte offset `at` lies between two characters of `text`, or at one of
/// its ends.
pub open spec fn on_boundary(text: Seq<char>, at: int) -> bool {
    0 <= at <= byte_len(text) && is_char_boundary(encode_utf8(text), at)
}

/// The characters that `text` holds between the byte offsets `from` and
/// `to`, both of which lie on character boundaries.
pub open spec fn byte_slice(text: Seq<char>, from: int, to: int) -> Seq<char> {
    decode_utf8(encode_utf8(text).subrange(from, to))
}

/// The encoding of a concatenation is the concatenation of the encodings.
pub proof fn lemma_encode_concat(a: Seq<char>, b: Seq<char>)
    ensures
        encode_utf8(a + b) == encode_utf8(a) + encode_utf8(b),
    decreases a.len(),
{
    if a.len() == 0 {
        assert(a + b =~= b);
        assert(encode_utf8(a) + encode_utf8(b) =~= encode_utf8(b));
    } else {
        lemma_encode_concat(a.drop_first(), b);
        assert((a + b).drop_first() =~= a.drop_first() + b);
        assert(encode_utf8(a + b) =~= encode_utf8(a) + encode_utf8(b));
    }
}

/// Byte lengths add up over concatenation.
pub proof fn lemma_byte_len_concat(a: Seq<char>, b: Seq<char>)
    ensures
        byte_len(a + b) == byte_len(a) + byte_len(b),
{
    lemma_encode_concat(a, b);
}

/// A single character is as long as its width.
pub proof fn lemma_byte_len_single(c: char)
    ensures
        byte_len(seq![c]) == char_width(c),
        1 <= char_width(c) <= 4,
{
    let one = seq![c];
    assert(one.drop_first() =~= Seq::<char>::empty());
    assert(encode_utf8(one.drop_first()) =~= Seq::<u8>::empty()) by {
        reveal_with_fuel(encode_utf8, 1);
    }
    assert(encode_utf8(one) =~= encode_scalar(c as u32)) by {
        reveal_with_fuel(encode_utf8, 2);
    }
}

/// The byte offset of the character behind position `at` exceeds the one of
/// position `at` by the width of the character there.
pub proof fn lemma_byte_len_step(text: Seq<char>, at: int)
    requires
        0 <= at < text.len(),
    ensures
        byte_len(text.take(at + 1)) == byte_len(text.take(at)) + char_width(text[at]),
        1 <= char_width(text[at]) <= 4,
{
    assert(text.take(at + 1) =~= text.take(at) + seq![text[at]]);
    lemma_byte_len_concat(text.take(at), seq![text[at]]);
    lemma_byte_len_single(text[at]);
}

/// A prefix is no longer in bytes than the whole.
pub proof fn lemma_byte_len_prefix(text: Seq<char>, at: int)
    requires
        0 <= at <= text.len(),
    ensures
        byte_len(text.take(at)) <= byte_len(text),
{
    assert(text =~= text.take(at) + text.skip(at));
    lemma_byte_len_concat(text.take(at), text.skip(at));
}

/// A run of blocks put behind another is one longer run.
pub proof fn lemma_block_run_push(count: nat)
    ensures
        block_run(count).push(BLOCK) == block_run(count + 1),
{
    assert(block_run(count).push(BLOCK) =~= block_run(count + 1));
}

/// `String::push` of the standard library: appends the character to the end
/// of the string.
#[verifier::external_body]
fn push_char(out: &mut String, c: char)
    ensures
        final(out)@ == old(out)@.push(c),
{
    out.push(c);
}

/// Appends one character.
pub fn append_char(out: &mut String, c: char)
    ensures
        final(out)@ == old(out)@.push(c),
{
    push_char(out, c);
}

/// Appends `count` block characters.
pub fn append_blocks(out: &mut String, count: usize)
    ensures
        final(out)@ == old(out)@ + block_run(count as nat),
{
    let ghost before = out@;
    let mut done: usize = 0;
    proof {
        assert(before + block_run(0) =~= before);
    }
    while done < count
        invariant
            done <= count,
            out@ == before + block_run(done as nat),
        decreases count - done,
    {
        proof {
            lemma_block_run_push(done as nat);
            assert((before + block_run(done as nat)).push(BLOCK) =~= before + block_run(
                done as nat,
            ).push(BLOCK));
        }
        push_char(out, BLOCK);
        done = done + 1;
    }
}

/// Appends the characters of `chars` from position `from` up to `to`.
pub fn append_range(out: &mut String, chars: &Vec<char>, from: usize, to: usize)
    requires
        from <= to <= chars.len(),
    ensures
        final(out)@ == old(out)@ + chars@.subrange(from as int, to as int),
{
    let ghost before = out@;
    let mut at: usize = from;
    proof {
        assert(before + chars@.subrange(from as int, from as int) =~= before);
    }
    while at < to
        invariant
            from <= at <= to <= chars.len(),
            out@ == before + chars@.subrange(from as int, at as int),
        decreases to - at,
    {
        proof {
            assert((before + chars@.subrange(from as int, at as int)).push(chars@[at as int])
                =~= before + chars@.subrange(from as int, at + 1));
        }
        push_char(out, chars[at]);
        at = at + 1;
    }
}

/// The characters as a string.
pub fn to_text(chars: &Vec<char>) -> (text: String)
    ensures
        text@ == chars@,
{
    let mut text = String::new();
    append_range(&mut text, chars, 0, chars.len());
    proof {
        assert(Seq::<char>::empty() + chars@.subrange(0, chars@.len() as int) =~= chars@);
    }
    text
}

/// Number of bytes of `text`.
pub fn byte_length(text: &str) -> (len: usize)
    ensures
        len == byte_len(text@),
{
    text.as_bytes().len()
}

/// Number of bytes of the characters of `chars` from position `from` up to
/// `to`.
pub(crate) fn range_byte_length(chars: &Vec<char>, from: usize, to: usize) -> (len: usize)
    requires
        from <= to <= chars.len(),
        byte_len(chars@) <= usize::MAX,
    ensures
        len == byte_len(chars@.subrange(from as int, to as int)),
{
    let mut len: usize = 0;
    let mut at: usize = from;
    proof {
        assert(chars@.subrange(from as int, from as int) =~= Seq::<char>::empty());
    }
    while at < to
        invariant
            from <= at <= to <= chars.len(),
            byte_len(chars@) <= usize::MAX,
            len == byte_len(chars@.subrange(from as int, at as int)),
        decreases to - at,
    {
        proof {
            let part = chars@.subrange(from as int, at as int);
            let next = chars@.subrange(from as int, at + 1);
            assert(next =~= part + seq![chars@[at as int]]);
            lemma_byte_len_concat(part, seq![chars@[at as int]]);
            lemma_byte_len_single(chars@[at as int]);
            let head = chars@.take(from as int);
            let rest = chars@.skip(at + 1);
            assert(chars@ =~= head + next + rest);
            lemma_byte_len_concat(head + next, rest);
            lemma_byte_len_concat(head, next);
        }
        len = len + width_of(chars[at]);
        at = at + 1;
    }
    len
}

/// The characters of `text`, one by one.
pub fn to_chars(text: &str) -> (chars: Vec<char>)
    ensures
        chars@ == text@,
{
    let mut chars: Vec<char> = Vec::new();
    for c in it: text.chars()
        invariant
            it.seq() == text@,
            chars@ == it.seq().take(it.index() as int),
    {
        chars.push(c);
    }
    chars
}

/// Number of bytes that `c` takes in UTF-8.
pub fn width_of(c: char) -> (width: usize)
    ensures
        width == char_width(c),
        1 <= width <= 4,
{
    proof {
        char_is_scalar(c);
    }
    let code = c as u32;
    if code < 0x80 {
        1
    } else if code < 0x800 {
        2
    } else if code < 0x10000 {
        3
    } else {
        4
    }
}

/// A boundary of the text that lies at or behind `from` is a boundary of
/// what follows `from`.
proof fn lemma_boundary_in_suffix(bytes: Seq<u8>, from: int, to: int)
    requires
        valid_utf8(bytes),
        0 <= from <= to <= bytes.len(),
        is_char_boundary(bytes, from),
        is_char_boundary(bytes, to),
    ensures
        valid_utf8(bytes.subrange(from, bytes.len() as int)),
        is_char_boundary(bytes.subrange(from, bytes.len() as int), to - from),
{
    let suffix = bytes.subrange(from, bytes.len() as int);
    valid_utf8_split(bytes, from);
    if to < bytes.len() {
        is_char_boundary_iff_not_is_continuation_byte(bytes, to);
        assert(suffix[to - from] == bytes[to]);
        is_char_boundary_iff_not_is_continuation_byte(suffix, to - from);
    } else {
        is_char_boundary_start_end_of_seq(suffix);
    }
}

/// The part of `text` between two byte offsets that lie on character
/// boundaries.
pub fn slice_bytes<'a>(text: &'a str, from: usize, to: usize) -> (part: &'a str)
    requires
        from <= to,
        on_boundary(text@, from as int),
        on_boundary(text@, to as int),
    ensures
        part@ == byte_slice(text@, from as int, to as int),
{
    let ghost bytes = encode_utf8(text@);
    proof {
        encode_utf8_valid_utf8(text@);
        lemma_boundary_in_suffix(bytes, from as int, to as int);
    }
    let (_, tail) = text.split_at(from);
    let (part, _) = tail.split_at(to - from);
    proof {
        assert(encode_utf8(tail@) =~= bytes.subrange(from as int, bytes.len() as int));
        assert(encode_utf8(part@) =~= bytes.subrange(from as int, to as int));
        encode_utf8_decode_utf8(part@);
    }
    part
}

} // verus!
