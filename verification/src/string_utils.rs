//! Identifiers from the clock, and sanitising of input text.

use crate::clock::{duration_millis, since_epoch, wall_clock_now, whole_millis};
use crate::text::{
    append_digits, digits_text, lemma_digits_order, lemma_digits_round_trip, precedes, push_char,
    text_value,
};
use std::time::{Duration, SystemTimeError};
use vstd::prelude::*;

verus! {

/// What every identifier starts with.
pub open spec fn id_prefix() -> Seq<char> {
    seq!['d', 'a', 'h', 'l', 'i', 'a', '_']
}

/// The decimal text of `n`.
pub open spec fn decimal_text(n: nat) -> Seq<char> {
    digits_text(n, 10)
}

/// The identifier for a time stamp: the prefix, then the milliseconds in
/// decimal.
pub open spec fn id_text(millis: nat) -> Seq<char> {
    id_prefix() + decimal_text(millis)
}

/// An identifier starts with the prefix, and what follows reads back as the
/// time stamp it was made from.
pub proof fn lemma_id_reads_back(millis: nat)
    ensures
        id_text(millis).len() > id_prefix().len(),
        id_text(millis).take(id_prefix().len() as int) == id_prefix(),
        text_value(id_text(millis).skip(id_prefix().len() as int), 10) == millis,
{
    lemma_digits_round_trip(millis, 10);
    assert(id_text(millis).take(id_prefix().len() as int) =~= id_prefix());
    assert(id_text(millis).skip(id_prefix().len() as int) =~= decimal_text(millis));
}

/// Different time stamps give different identifiers.
pub proof fn lemma_id_distinct(a: nat, b: nat)
    requires
        a != b,
    ensures
        id_text(a) != id_text(b),
{
    lemma_id_reads_back(a);
    lemma_id_reads_back(b);
}

/// Identifiers sort in the order of their time stamps, as long as the time
/// stamps have equally many digits.
pub proof fn lemma_id_order(earlier: nat, later: nat)
    requires
        earlier < later,
        decimal_text(earlier).len() == decimal_text(later).len(),
    ensures
        precedes(id_text(earlier), id_text(later)),
{
    lemma_digits_order(earlier, later, 10);
    let a = decimal_text(earlier);
    let b = decimal_text(later);
    let i = choose|i: int|
        0 <= i < a.len() && i < b.len() && #[trigger] a.take(i) == b.take(i) && a[i] < b[i];
    let n = id_prefix().len() as int;
    assert(id_text(earlier).take(n + i) =~= id_prefix() + a.take(i));
    assert(id_text(later).take(n + i) =~= id_prefix() + b.take(i));
    assert(id_text(earlier)[n + i] == a[i]);
    assert(id_text(later)[n + i] == b[i]);
}

/// The system clock stood before the Unix epoch.
#[derive(Debug)]
pub struct ClockError {
    /// The clock's account: how far before the epoch it stood.
    pub cause: SystemTimeError,
}

/// The identifier for a time stamp in milliseconds since the Unix epoch.
pub fn id_from_millis(millis: u128) -> (id: String)
    ensures
        id@ == id_text(millis as nat),
{
    let mut id = String::new();
    push_char(&mut id, 'd');
    push_char(&mut id, 'a');
    push_char(&mut id, 'h');
    push_char(&mut id, 'l');
    push_char(&mut id, 'i');
    push_char(&mut id, 'a');
    push_char(&mut id, '_');
    assert(id@ =~= id_prefix());
    append_digits(&mut id, millis, 10);
    id
}

/// An identifier from the wall clock's reading now. Fails only where the
/// clock stands before the Unix epoch.
pub fn generate_id() -> (r: Result<String, ClockError>)
    ensures
        exists|reading: Result<Duration, SystemTimeError>| id_outcome(reading, r),
{
    let now = wall_clock_now();
    let reading = since_epoch(&now);
    let ghost seen = reading;
    let r = id_from_reading(reading);
    assert(id_outcome(seen, r));
    r
}

/// What a reading of the wall clock, counted from the Unix epoch, leads to:
/// for a time since the epoch the identifier of its whole milliseconds, for
/// a clock before the epoch the error with the clock's account.
pub open spec fn id_outcome(
    reading: Result<Duration, SystemTimeError>,
    r: Result<String, ClockError>,
) -> bool {
    match reading {
        Ok(passed) => r matches Ok(id) && id@ == id_text(duration_millis(passed) as nat),
        Err(e) => r == Err::<String, ClockError>(ClockError { cause: e }),
    }
}

/// The identifier for a reading of the wall clock, counted from the Unix
/// epoch. Succeeds exactly where the reading is a time since the epoch.
pub fn id_from_reading(reading: Result<Duration, SystemTimeError>) -> (r: Result<
    String,
    ClockError,
>)
    ensures
        id_outcome(reading, r),
{
    match reading {
        Ok(passed) => {
            let millis = whole_millis(&passed);
            Ok(id_from_millis(millis))
        },
        Err(e) => Err(ClockError { cause: e }),
    }
}

/// What `char::is_alphanumeric` of std gives for a character beyond ASCII:
/// whether it is a letter or a number by Unicode's classification.
pub uninterp spec fn alphanumeric_beyond_ascii(c: char) -> bool;

/// Whether a character is one of ASCII's letters and digits.
pub open spec fn ascii_alphanumeric(c: char) -> bool {
    ('0' <= c && c <= '9') || ('A' <= c && c <= 'Z') || ('a' <= c && c <= 'z')
}

/// Whether a character is alphanumeric: within ASCII a letter or a digit,
/// beyond it a letter or a number by Unicode's classification.
pub open spec fn alphanumeric(c: char) -> bool {
    if (c as u32) < 128 {
        ascii_alphanumeric(c)
    } else {
        alphanumeric_beyond_ascii(c)
    }
}

/// Whether a character has Unicode's property `White_Space`: the controls
/// from tab to carriage return, the space, next line, the no-break space,
/// and the spaces and separators beyond Latin-1.
pub open spec fn whitespace(c: char) -> bool {
    let n = c as u32;
    (0x09 <= n && n <= 0x0d) || n == 0x20 || n == 0x85 || n == 0xa0 || n == 0x1680 || (0x2000
        <= n && n <= 0x200a) || n == 0x2028 || n == 0x2029 || n == 0x202f || n == 0x205f || n
        == 0x3000
}

/// `char::is_alphanumeric` of std. The answer depends on the character
/// alone; within ASCII it holds of the letters and digits and of nothing
/// else.
#[verifier::external_body]
fn is_alphanumeric(c: char) -> (b: bool)
    ensures
        b == if (c as u32) < 128 {
            ascii_alphanumeric(c)
        } else {
            alphanumeric_beyond_ascii(c)
        },
{
    c.is_alphanumeric()
}

/// `char::is_whitespace` of std: whether the character has Unicode's
/// property `White_Space`.
#[verifier::external_body]
fn is_whitespace(c: char) -> (b: bool)
    ensures
        b == whitespace(c),
{
    c.is_whitespace()
}

/// The characters that sanitising keeps: alphanumeric ones, whitespace,
/// the hyphen and the underscore.
pub open spec fn allowed(c: char) -> bool {
    alphanumeric(c) || whitespace(c) || c == '-' || c == '_'
}

/// A text without the characters that are not allowed; the others stay in
/// their order.
pub open spec fn sanitized(text: Seq<char>) -> Seq<char> {
    text.filter(|c: char| allowed(c))
}

/// Sanitising a text with one more character at its end.
pub proof fn lemma_sanitized_push(text: Seq<char>, c: char)
    ensures
        sanitized(text.push(c)) == if allowed(c) {
            sanitized(text).push(c)
        } else {
            sanitized(text)
        },
{
    reveal(Seq::filter);
    assert(text.push(c).drop_last() =~= text);
}

/// Every character of a sanitised text is allowed, and the text is no
/// longer than the one it was made from.
pub proof fn lemma_sanitized_allowed(text: Seq<char>)
    ensures
        forall|i: int| 0 <= i < sanitized(text).len() ==> allowed(#[trigger] sanitized(text)[i]),
        sanitized(text).len() <= text.len(),
    decreases text.len(),
{
    reveal(Seq::filter);
    if text.len() > 0 {
        lemma_sanitized_allowed(text.drop_last());
        lemma_sanitized_push(text.drop_last(), text.last());
        assert(text.drop_last().push(text.last()) =~= text);
    }
}

/// Sanitising twice changes nothing more.
pub proof fn lemma_sanitized_idempotent(text: Seq<char>)
    ensures
        sanitized(sanitized(text)) == sanitized(text),
    decreases text.len(),
{
    reveal(Seq::filter);
    if text.len() > 0 {
        let front = text.drop_last();
        lemma_sanitized_idempotent(front);
        lemma_sanitized_push(front, text.last());
        assert(front.push(text.last()) =~= text);
        if allowed(text.last()) {
            lemma_sanitized_push(sanitized(front), text.last());
        }
    }
}

/// Whether sanitising keeps a character.
pub fn is_allowed(c: char) -> (b: bool)
    ensures
        b == allowed(c),
{
    is_alphanumeric(c) || is_whitespace(c) || c == '-' || c == '_'
}

/// Drops from a text every character that is not alphanumeric, whitespace,
/// a hyphen or an underscore. Nothing is replaced or escaped.
pub fn sanitize_input(input: &str) -> (out: String)
    ensures
        out@ == sanitized(input@),
        forall|i: int| 0 <= i < out@.len() ==> allowed(#[trigger] out@[i]),
        out@.len() <= input@.len(),
{
    let mut out = String::new();
    for c in it: input.chars()
        invariant
            it.seq() == input@,
            out@ == sanitized(input@.take(it.index())),
    {
        proof {
            lemma_sanitized_push(input@.take(it.index()), c);
            assert(input@.take(it.index() + 1) =~= input@.take(it.index()).push(c));
        }
        if is_allowed(c) {
            push_char(&mut out, c);
        }
    }
    proof {
        assert(input@.take(input@.len() as int) =~= input@);
        lemma_sanitized_allowed(input@);
    }
    out
}

} // verus!
