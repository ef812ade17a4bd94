//! The boot counter that rolls back to the newest snapshot after repeated
//! failed boots.
use vstd::prelude::*;
use crate::text::{trim_text, trimmed};

verus! {

/// Boots in a row without a successful start that trigger a rollback.
pub const RATOON_THRESHOLD: u8 = 3;

/// Value of a string of decimal digits.
pub open spec fn digits_value(d: Seq<char>) -> nat
    decreases d.len(),
{
    if d.len() == 0 {
        0
    } else {
        digits_value(d.drop_last()) * 10 + ((d.last() as int - 48) as nat)
    }
}

pub open spec fn is_digit(c: char) -> bool {
    '0' <= c && c <= '9'
}

/// The text after an optional leading `+`.
pub open spec fn unsigned_body(s: Seq<char>) -> Seq<char> {
    if s.len() > 0 && s[0] == '+' {
        s.drop_first()
    } else {
        s
    }
}

/// Every character is a decimal digit.
pub open spec fn all_digits(b: Seq<char>) -> bool {
    forall|i: int| 0 <= i < b.len() ==> is_digit(#[trigger] b[i])
}

/// How a `u8` reads from text: an optional `+`, then one or more decimal
/// digits whose value is at most 255.
pub open spec fn parse_u8_spec(s: Seq<char>) -> Option<u8> {
    let body = unsigned_body(s);
    if body.len() > 0 && all_digits(body) && digits_value(body) <= 255 {
        Some(digits_value(body) as u8)
    } else {
        None
    }
}

/// The count a counter file holds: its trimmed text read as a `u8`, or 0.
pub open spec fn counter_value(content: Seq<char>) -> u8 {
    match parse_u8_spec(trimmed(content)) {
        Some(v) => v,
        None => 0,
    }
}

/// Reads a `u8` from text.
pub fn parse_u8(s: &str) -> (r: Option<u8>)
    ensures
        r == parse_u8_spec(s@),
{
    let n = s.unicode_len();
    let start: usize = if n > 0 && s.get_char(0) == '+' {
        1
    } else {
        0
    };
    let ghost body = s@.skip(start as int);
    assert(start == 1 ==> body =~= s@.drop_first());
    assert(start == 0 ==> body =~= s@);
    assert(body == unsigned_body(s@));
    if start >= n {
        return None;
    }
    let mut v: u64 = 0;
    let mut i: usize = start;
    assert(body.take(0) =~= Seq::<char>::empty());
    while i < n
        invariant
            start <= i <= n,
            n == s@.len(),
            body == s@.skip(start as int),
            body == unsigned_body(s@),
            v <= 255,
            v == digits_value(body.take(i - start)),
            forall|k: int| 0 <= k < i - start ==> is_digit(#[trigger] body[k]),
        decreases n - i,
    {
        let c = s.get_char(i);
        assert(c == body[i - start]);
        if !('0' <= c && c <= '9') {
            assert(!is_digit(body[i - start]));
            assert(!all_digits(body));
            return None;
        }
        assert(body.take(i + 1 - start).drop_last() =~= body.take(i - start));
        assert(body.take(i + 1 - start).last() == c);
        let d = (c as u32 - 48) as u64;
        assert(d == (c as int - 48));
        v = v * 10 + d;
        if v > 255 {
            proof {
                if all_digits(body) {
                    lemma_prefix_value_le(body, (i + 1 - start) as int);
                }
            }
            return None;
        }
        i = i + 1;
    }
    assert(body.take(n - start) =~= body);
    Some(v as u8)
}

proof fn lemma_prefix_value_le(d: Seq<char>, k: int)
    requires
        0 <= k <= d.len(),
        forall|i: int| 0 <= i < d.len() ==> is_digit(#[trigger] d[i]),
    ensures
        digits_value(d.take(k)) <= digits_value(d),
    decreases d.len() - k,
{
    if k < d.len() {
        assert(d.take(k + 1).drop_last() =~= d.take(k));
        assert(is_digit(d[k]));
        lemma_prefix_value_le(d, k + 1);
    } else {
        assert(d.take(k) =~= d);
    }
}

/// The count stored in a counter file's text.
pub fn read_counter(content: &str) -> (r: u8)
    ensures
        r == counter_value(content@),
{
    let t = trim_text(content);
    match parse_u8(t.as_str()) {
        Some(v) => v,
        None => 0,
    }
}

/// The count after one more boot; an absent counter counts as 0.
pub open spec fn next_count_spec(previous: Option<u8>) -> u8 {
    match previous {
        Some(v) => if v < 255 {
            (v + 1) as u8
        } else {
            255
        },
        None => 1,
    }
}

/// Counts one more boot (staying at 255 once there).
pub fn next_boot_count(previous: Option<u8>) -> (r: u8)
    ensures
        r == next_count_spec(previous),
{
    match previous {
        Some(v) => if v < 255 {
            v + 1
        } else {
            255
        },
        None => 1,
    }
}

/// Whether this count triggers a rollback to the newest snapshot.
pub fn rollback_due(count: u8) -> (r: bool)
    ensures
        r == (count >= RATOON_THRESHOLD),
{
    count >= RATOON_THRESHOLD
}

/// One boot of the protocol: the counter afterwards (absent once reset) and
/// whether modules were disabled, given how a rollback, if due, turned out.
pub open spec fn engage_spec(previous: Option<u8>, restored: bool) -> (Option<u8>, bool) {
    let count = next_count_spec(previous);
    if count >= RATOON_THRESHOLD {
        if restored {
            (None, false)
        } else {
            (Some(count), true)
        }
    } else {
        (Some(count), false)
    }
}

/// One boot of the protocol: the counter to keep (None: delete it) and
/// whether every module gets a `disable` marker, given the previous counter
/// and, where a rollback was due, whether restoring the snapshot succeeded.
pub fn engage_step(previous: Option<u8>, restored: bool) -> (r: (Option<u8>, bool))
    ensures
        r == engage_spec(previous, restored),
{
    let count = next_boot_count(previous);
    if rollback_due(count) {
        if restored {
            (None, false)
        } else {
            (Some(count), true)
        }
    } else {
        (Some(count), false)
    }
}

/// Engaging on a counter below 255 leaves exactly one more; and three boots
/// in a row from an absent counter end with the counter deleted after a
/// successful restore, or with every module disabled after a failed one.
pub proof fn lemma_ratoon_three_boots(v: u8, r1: bool, r2: bool, r3: bool)
    requires
        v < 255,
    ensures
        next_count_spec(Some(v)) == v + 1,
        engage_spec(None, r1) == (Some(1u8), false),
        engage_spec(Some(1u8), r2) == (Some(2u8), false),
        r3 ==> engage_spec(Some(2u8), r3) == (None::<u8>, false),
        !r3 ==> engage_spec(Some(2u8), r3) == (Some(3u8), true),
{
}

} // verus!
