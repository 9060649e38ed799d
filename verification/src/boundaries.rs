//! Tokens and characters: every token that the lexer cuts from a text
//! starts and ends between two characters of the text.

use crate::grammar::fits;
use crate::lexer::{lemma_run_end, punctuation, run_end, token_end, tokens_from, Class, Token};
use vstd::prelude::*;
use vstd::utf8::{
    is_char_boundary, is_char_boundary_iff_not_is_continuation_byte,
    is_char_boundary_start_end_of_seq, is_continuation_byte, length_of_first_scalar,
    pop_first_scalar, valid_first_scalar, valid_utf8, valid_utf8_split,
};

verus! {

/// Whether position `i` of the text is at its end or at a byte that starts
/// a character.
pub open spec fn starts_char(bytes: Seq<u8>, i: int) -> bool {
    0 <= i <= bytes.len() && (i < bytes.len() ==> !is_continuation_byte(bytes[i]))
}

/// A position starts a character exactly if it is a character boundary.
pub proof fn lemma_starts_char(bytes: Seq<u8>, i: int)
    requires
        valid_utf8(bytes),
        0 <= i <= bytes.len(),
    ensures
        starts_char(bytes, i) <==> is_char_boundary(bytes, i),
{
    if i < bytes.len() {
        is_char_boundary_iff_not_is_continuation_byte(bytes, i);
    } else {
        is_char_boundary_start_end_of_seq(bytes);
    }
}

/// After a byte that is a character by itself, a character starts.
pub proof fn lemma_after_ascii(bytes: Seq<u8>, i: int)
    requires
        valid_utf8(bytes),
        0 <= i < bytes.len(),
        bytes[i] < 0x80,
    ensures
        starts_char(bytes, i + 1),
{
    lemma_starts_char(bytes, i);
    valid_utf8_split(bytes, i);
    let tail = bytes.subrange(i, bytes.len() as int);
    assert(tail[0] == bytes[i]);
    assert(length_of_first_scalar(tail) == 1);
    let rest = pop_first_scalar(tail);
    assert(valid_utf8(rest)) by {
        reveal_with_fuel(valid_utf8, 2);
    }
    if i + 1 < bytes.len() {
        assert(rest[0] == bytes[i + 1]);
        assert(valid_first_scalar(rest)) by {
            reveal_with_fuel(valid_utf8, 2);
        }
    }
}

/// The token that starts where a character starts ends where a character
/// starts.
pub proof fn lemma_token_end_starts_char(bytes: Seq<u8>, at: int)
    requires
        valid_utf8(bytes),
        0 <= at < bytes.len(),
    ensures
        at < token_end(bytes, at) <= bytes.len(),
        starts_char(bytes, token_end(bytes, at)),
{
    let b = bytes[at];
    let end = token_end(bytes, at);
    lemma_run_end(bytes, at + 1, Class::Word);
    lemma_run_end(bytes, at + 1, Class::Digit);
    lemma_run_end(bytes, at + 1, Class::Continuation);
    if (0x61 <= b <= 0x7a) || Class::Digit.has(b) {
        if end == at + 1 {
            lemma_after_ascii(bytes, at);
        } else {
            assert(Class::Word.has(bytes[end - 1]) || Class::Digit.has(bytes[end - 1]));
            lemma_after_ascii(bytes, end - 1);
        }
    } else if punctuation(b) is Some {
        lemma_after_ascii(bytes, at);
    }
}

/// Every token of a text lies in the text and cuts no character.
pub proof fn lemma_tokens_fit(bytes: Seq<u8>, from: int)
    requires
        valid_utf8(bytes),
        bytes.len() <= u32::MAX,
        starts_char(bytes, from),
    ensures
        forall|i: int|
            0 <= i < tokens_from(bytes, from).len() ==> fits(
                bytes,
                (#[trigger] tokens_from(bytes, from)[i]).range,
            ),
    decreases bytes.len() - from,
{
    let at = run_end(bytes, from, Class::Space);
    lemma_run_end(bytes, from, Class::Space);
    if from <= at < bytes.len() {
        if at > from {
            lemma_after_ascii(bytes, at - 1);
        }
        let end = token_end(bytes, at);
        lemma_token_end_starts_char(bytes, at);
        lemma_starts_char(bytes, at);
        lemma_starts_char(bytes, end);
        lemma_tokens_fit(bytes, end);
        let rest = tokens_from(bytes, end);
        let all = tokens_from(bytes, from);
        assert forall|i: int| 0 <= i < all.len() implies fits(bytes, (#[trigger] all[i]).range) by {
            if i > 0 {
                assert(all[i] == rest[i - 1]);
            }
        }
    }
}

/// Whether the bytes from `lo` up to `hi` are blank.
pub open spec fn blank(bytes: Seq<u8>, lo: int, hi: int) -> bool {
    forall|k: int| lo <= k < hi ==> Class::Space.has(#[trigger] bytes[k])
}

/// Where the token stands in the text that comes after position `before`:
/// after blanks only, and with at least one byte.
pub open spec fn follows(bytes: Seq<u8>, before: int, t: Token) -> bool {
    &&& before <= t.range.start < t.range.end <= bytes.len()
    &&& blank(bytes, before, t.range.start as int)
}

/// The end of the token before the `i`th of the tokens from `from` on, or
/// `from` for the first.
pub open spec fn end_before(bytes: Seq<u8>, from: int, i: int) -> int {
    if i == 0 {
        from
    } else {
        tokens_from(bytes, from)[i - 1].range.end as int
    }
}

/// The tokens of a text stand in the text one after the other: each has
/// at least one byte and follows the one before it after blanks only.
pub proof fn lemma_tokens_in_order(bytes: Seq<u8>, from: int)
    requires
        0 <= from <= bytes.len() <= u32::MAX,
    ensures
        forall|i: int|
            0 <= i < tokens_from(bytes, from).len() ==> follows(
                bytes,
                end_before(bytes, from, i),
                #[trigger] tokens_from(bytes, from)[i],
            ),
    decreases bytes.len() - from,
{
    let at = run_end(bytes, from, Class::Space);
    lemma_run_end(bytes, from, Class::Space);
    if from <= at < bytes.len() {
        let end = token_end(bytes, at);
        lemma_run_end(bytes, at + 1, Class::Word);
        lemma_run_end(bytes, at + 1, Class::Digit);
        lemma_run_end(bytes, at + 1, Class::Continuation);
        lemma_tokens_in_order(bytes, end);
        let rest = tokens_from(bytes, end);
        let all = tokens_from(bytes, from);
        assert(all[0].range.start == at && all[0].range.end == end);
        assert forall|i: int| 0 <= i < all.len() implies follows(
            bytes,
            end_before(bytes, from, i),
            #[trigger] all[i],
        ) by {
            if i > 0 {
                assert(all[i] == rest[i - 1]);
                assert(follows(bytes, end_before(bytes, end, i - 1), rest[i - 1]));
                if i > 1 {
                    assert(all[i - 1] == rest[i - 2]);
                }
            }
        }
    }
}

} // verus!
