//! Diagnostic settings, read from the text of environment variables.

use std::collections::HashSet;

use vstd::prelude::*;

verus! {

broadcast use vstd::std_specs::hash::group_hash_axioms;

/// Whether `char::is_whitespace` says yes.
pub uninterp spec fn white_space(c: char) -> bool;

/// Whether a character is white space. Of the ASCII characters the tab, the line
/// feed, the vertical tab, the form feed, the carriage return and the space are.
pub open spec fn blank(c: char) -> bool {
    if (c as int) < 128 { 9 <= c as int <= 13 || c as int == 32 } else { white_space(c) }
}

/// `char::is_whitespace` tells whether a character has the Unicode property
/// `White_Space`. It depends on the character alone. Which ASCII characters have
/// the property is stated; which others have it is left to the Unicode tables of
/// the standard library.
#[verifier::external_body]
fn is_space(c: char) -> (r: bool)
    ensures
        r == white_space(c),
        (c as int) < 128 ==> r == (9 <= c as int <= 13 || c as int == 32),
{
    c.is_whitespace()
}

/// The characters of a string.
fn chars_of(s: &str) -> (r: Vec<char>)
    ensures
        r@ == s@,
{
    let n = s.unicode_len();
    let mut r: Vec<char> = Vec::new();
    let mut i: usize = 0;
    while i < n
        invariant
            n == s@.len(),
            i <= n,
            r@ == s@.take(i as int),
        decreases n - i,
    {
        r.push(s.get_char(i));
        i = i + 1;
        assert(r@ =~= s@.take(i as int));
    }
    assert(r@ =~= s@);
    r
}

fn same_text(a: &str, b: &str) -> (r: bool)
    ensures
        r == (a@ == b@),
{
    let n = a.unicode_len();
    if n != b.unicode_len() {
        return false;
    }
    let mut i: usize = 0;
    while i < n
        invariant
            n == a@.len(),
            n == b@.len(),
            i <= n,
            forall|k: int| 0 <= k < i ==> a@[k] == b@[k],
        decreases n - i,
    {
        if a.get_char(i) != b.get_char(i) {
            return false;
        }
        i = i + 1;
    }
    assert(a@ =~= b@);
    true
}

/// The texts that switch a setting on.
pub open spec fn switches_on(text: Seq<char>) -> bool {
    text == "1"@ || text == "true"@ || text == "TRUE"@ || text == "yes"@ || text == "YES"@
}

/// Whether a setting is on; one that is not set is off.
pub fn flag_enabled(value: Option<&str>) -> (r: bool)
    ensures
        r == (match value {
            Some(s) => switches_on(s@),
            None => false,
        }),
{
    match value {
        Some(s) => same_text(s, "1") || same_text(s, "true") || same_text(s, "TRUE") || same_text(
            s,
            "yes",
        ) || same_text(s, "YES"),
        None => false,
    }
}

// ── numbers ─────────────────────────────────────────────────────────
/// The value of a digit, letters included.
pub open spec fn digit_value(c: char) -> Option<int> {
    if '0' <= c <= '9' {
        Some(c as int - '0' as int)
    } else if 'a' <= c <= 'z' {
        Some(c as int - 'a' as int + 10)
    } else if 'A' <= c <= 'Z' {
        Some(c as int - 'A' as int + 10)
    } else {
        None
    }
}

/// Whether a character is a digit of a number to the base `radix`.
pub open spec fn is_digit(c: char, radix: int) -> bool {
    match digit_value(c) {
        Some(d) => d < radix,
        None => false,
    }
}

/// The value of a string of digits.
pub open spec fn digits_value(s: Seq<char>, radix: int) -> int
    decreases s.len(),
{
    if s.len() == 0 {
        0
    } else {
        digits_value(s.drop_last(), radix) * radix + digit_value(s.last())->0
    }
}

/// The text after an optional plus sign.
pub open spec fn unsigned_part(s: Seq<char>) -> Seq<char> {
    if s.len() > 0 && s[0] == '+' { s.drop_first() } else { s }
}

/// The number that a text denotes: digits after an optional plus sign, at least
/// one and no other character, and not above `max`.
pub open spec fn number_of(s: Seq<char>, radix: int, max: int) -> Option<int> {
    let body = unsigned_part(s);
    if body.len() > 0 && (forall|i: int| 0 <= i < body.len() ==> is_digit(#[trigger] body[i], radix))
        && digits_value(body, radix) <= max {
        Some(digits_value(body, radix))
    } else {
        None
    }
}

fn digit(c: char) -> (r: Option<u64>)
    ensures
        (match digit_value(c) {
            Some(d) => r == Some(d as u64) && 0 <= d < 36,
            None => r is None,
        }),
{
    if '0' <= c && c <= '9' {
        Some(c as u64 - 48)
    } else if 'a' <= c && c <= 'z' {
        Some(c as u64 - 97 + 10)
    } else if 'A' <= c && c <= 'Z' {
        Some(c as u64 - 65 + 10)
    } else {
        None
    }
}

proof fn lemma_value_grows(s: Seq<char>, radix: int, i: int)
    requires
        radix >= 1,
        0 <= i <= s.len(),
        forall|k: int| 0 <= k < s.len() ==> is_digit(#[trigger] s[k], radix),
    ensures
        0 <= digits_value(s.take(i), radix) <= digits_value(s, radix),
    decreases s.len(),
{
    if s.len() == 0 {
        assert(s.take(i) =~= s);
    } else if i == s.len() {
        assert(s.take(i) =~= s);
        let t = s.drop_last();
        assert forall|k: int| 0 <= k < t.len() implies is_digit(#[trigger] t[k], radix) by {
            assert(t[k] == s[k]);
        }
        lemma_value_grows(t, radix, t.len() as int);
        assert(t.take(t.len() as int) =~= t);
        assert(is_digit(s[s.len() - 1], radix));
        let v = digits_value(t, radix);
        assert(v * radix >= 0) by (nonlinear_arith)
            requires
                v >= 0,
                radix >= 1,
        ;
    } else {
        let t = s.drop_last();
        assert forall|k: int| 0 <= k < t.len() implies is_digit(#[trigger] t[k], radix) by {
            assert(t[k] == s[k]);
        }
        lemma_value_grows(t, radix, i);
        assert(t.take(i) =~= s.take(i));
        assert(is_digit(s[s.len() - 1], radix));
        let v = digits_value(t, radix);
        assert(v * radix >= v) by (nonlinear_arith)
            requires
                v >= 0,
                radix >= 1,
        ;
    }
}

/// Reads a number to the base `radix` that is at most `max`.
pub fn parse_number(text: &[char], radix: u64, max: u64) -> (r: Option<u64>)
    requires
        1 <= radix <= 36,
    ensures
        (match number_of(text@, radix as int, max as int) {
            Some(v) => r == Some(v as u64),
            None => r is None,
        }),
{
    let start: usize = if text.len() > 0 && text[0] == '+' { 1 } else { 0 };
    let ghost body = unsigned_part(text@);
    assert(body =~= text@.skip(start as int));
    if start == text.len() {
        return None;
    }
    let mut acc: u64 = 0;
    let mut i: usize = start;
    assert(body.take(0) =~= Seq::empty());
    while i < text.len()
        invariant
            1 <= radix <= 36,
            body == unsigned_part(text@),
            body == text@.skip(start as int),
            start <= i <= text@.len(),
            body.len() > 0,
            acc <= max,
            acc == digits_value(body.take(i - start), radix as int),
            forall|k: int| 0 <= k < i - start ==> is_digit(#[trigger] body[k], radix as int),
        decreases text@.len() - i,
    {
        let ghost k = i - start;
        assert(body[k] == text@[i as int]);
        assert(body.take(k + 1).drop_last() =~= body.take(k));
        let d = match digit(text[i]) {
            None => {
                assert(!is_digit(body[k], radix as int));
                return None;
            },
            Some(d) => d,
        };
        if d >= radix {
            assert(!is_digit(body[k], radix as int));
            return None;
        }
        assert(acc as u128 * radix as u128 <= 0xffff_ffff_ffff_ffffu128 * 36) by (nonlinear_arith)
            requires
                acc <= 0xffff_ffff_ffff_ffff,
                radix <= 36,
        ;
        let next: u128 = acc as u128 * radix as u128 + d as u128;
        assert(next == digits_value(body.take(k + 1), radix as int));
        if next > max as u128 {
            proof {
                if forall|j: int| 0 <= j < body.len() ==> is_digit(#[trigger] body[j], radix as int) {
                    lemma_value_grows(body, radix as int, k + 1);
                }
            }
            return None;
        }
        acc = next as u64;
        i = i + 1;
    }
    assert(body.take(i - start) =~= body);
    Some(acc)
}

/// A count from a setting: one where it is missing, malformed or zero.
pub fn positive_or_one(value: Option<&str>) -> (r: u64)
    ensures
        r == (match value {
            Some(s) => match number_of(s@, 10, u64::MAX as int) {
                Some(n) => if n > 0 { n } else { 1 },
                None => 1,
            },
            None => 1,
        }),
{
    match value {
        None => 1,
        Some(s) => {
            let text = chars_of(s);
            proof {
                lemma_number_bounds(text@, 10, u64::MAX as int);
            }
            match parse_number(text.as_slice(), 10, u64::MAX) {
                Some(n) => if n > 0 { n } else { 1 },
                None => 1,
            }
        },
    }
}

// ── window lists ────────────────────────────────────────────────────
/// A text without white space at its end.
pub open spec fn trimmed_end(s: Seq<char>) -> Seq<char>
    decreases s.len(),
{
    if s.len() > 0 && blank(s.last()) { trimmed_end(s.drop_last()) } else { s }
}

/// A text without white space at its start.
pub open spec fn trimmed_start(s: Seq<char>) -> Seq<char>
    decreases s.len(),
{
    if s.len() > 0 && blank(s[0]) { trimmed_start(s.drop_first()) } else { s }
}

/// A text without white space at either end.
pub open spec fn trimmed(s: Seq<char>) -> Seq<char> {
    trimmed_start(trimmed_end(s))
}

fn trim(text: &[char]) -> (r: Vec<char>)
    ensures
        r@ == trimmed(text@),
{
    let mut hi: usize = text.len();
    assert(text@.take(hi as int) =~= text@);
    while hi > 0 && is_space(text[hi - 1])
        invariant
            hi <= text@.len(),
            trimmed_end(text@) == trimmed_end(text@.take(hi as int)),
        decreases hi,
    {
        assert(text@.take(hi as int).drop_last() =~= text@.take(hi - 1));
        hi = hi - 1;
    }
    let ghost s = text@.take(hi as int);
    assert(trimmed_end(text@) == s);
    let mut lo: usize = 0;
    assert(s.skip(0) =~= s);
    while lo < hi && is_space(text[lo])
        invariant
            lo <= hi <= text@.len(),
            s == text@.take(hi as int),
            trimmed_start(s) == trimmed_start(s.skip(lo as int)),
        decreases hi - lo,
    {
        assert(s.skip(lo as int).drop_first() =~= s.skip(lo + 1));
        lo = lo + 1;
    }
    assert(trimmed_start(s) == s.skip(lo as int));
    let mut r: Vec<char> = Vec::new();
    let mut i: usize = lo;
    while i < hi
        invariant
            lo <= i <= hi <= text@.len(),
            r@ == text@.subrange(lo as int, i as int),
        decreases hi - i,
    {
        r.push(text[i]);
        i = i + 1;
        assert(r@ =~= text@.subrange(lo as int, i as int));
    }
    assert(r@ =~= s.skip(lo as int));
    r
}

/// A text after an optional `0x`.
pub open spec fn hex_part(s: Seq<char>) -> Seq<char> {
    if s.len() >= 2 && s[0] == '0' && (s[1] == 'x' || s[1] == 'X') { s.skip(2) } else { s }
}

/// The window that one field of a list names: a hexadecimal number, or a decimal
/// one that is none.
pub open spec fn named_window(field: Seq<char>) -> Option<int> {
    let token = trimmed(field);
    if token.len() == 0 {
        None
    } else {
        match number_of(hex_part(token), 16, u32::MAX as int) {
            Some(x) => Some(x),
            None => number_of(token, 10, u32::MAX as int),
        }
    }
}

/// Reads one field of a list of windows.
pub fn parse_window(field: &[char]) -> (r: Option<u32>)
    ensures
        (match named_window(field@) {
            Some(x) => r == Some(x as u32) && 0 <= x <= u32::MAX,
            None => r is None,
        }),
{
    let token = trim(field);
    if token.len() == 0 {
        return None;
    }
    let start: usize = if token.len() >= 2 && token[0] == '0' && (token[1] == 'x' || token[1]
        == 'X') {
        2
    } else {
        0
    };
    let mut hex: Vec<char> = Vec::new();
    let mut i: usize = start;
    while i < token.len()
        invariant
            start <= i <= token@.len(),
            hex@ == token@.subrange(start as int, i as int),
        decreases token@.len() - i,
    {
        hex.push(token[i]);
        i = i + 1;
        assert(hex@ =~= token@.subrange(start as int, i as int));
    }
    assert(hex@ =~= hex_part(token@));
    proof {
        lemma_number_bounds(hex@, 16, u32::MAX as int);
        lemma_number_bounds(token@, 10, u32::MAX as int);
    }
    match parse_number(hex.as_slice(), 16, u32::MAX as u64) {
        Some(x) => Some(x as u32),
        None => match parse_number(token.as_slice(), 10, u32::MAX as u64) {
            Some(x) => Some(x as u32),
            None => None,
        },
    }
}

proof fn lemma_number_bounds(s: Seq<char>, radix: int, max: int)
    requires
        radix >= 1,
    ensures
        number_of(s, radix, max) matches Some(v) ==> 0 <= v <= max,
{
    let body = unsigned_part(s);
    if number_of(s, radix, max) is Some {
        lemma_value_grows(body, radix, body.len() as int);
        assert(body.take(body.len() as int) =~= body);
    }
}

/// The fields of a text that commas part.
pub open spec fn comma_fields(s: Seq<char>) -> Seq<Seq<char>>
    decreases s.len(),
{
    if s.len() == 0 {
        seq![Seq::<char>::empty()]
    } else {
        let before = comma_fields(s.drop_last());
        if s.last() == ',' {
            before.push(Seq::empty())
        } else {
            before.drop_last().push(before.last().push(s.last()))
        }
    }
}

/// The windows that a list names.
pub open spec fn named_windows(fields: Seq<Seq<char>>) -> Set<u32> {
    Set::new(
        |x: u32|
            exists|i: int| 0 <= i < fields.len() && named_window(#[trigger] fields[i]) == Some(x as int),
    )
}

/// Reads a list of windows to watch.
pub fn debug_scene_walk_xids(value: Option<&str>) -> (r: HashSet<u32>)
    ensures
        r@ == (match value {
            Some(s) => named_windows(comma_fields(s@)),
            None => Set::<u32>::empty(),
        }),
{
    let mut out: HashSet<u32> = HashSet::new();
    let s = match value {
        None => {
            assert(out@ =~= Set::<u32>::empty());
            return out;
        },
        Some(s) => s,
    };
    let text = chars_of(s);
    let mut field: Vec<char> = Vec::new();
    let mut i: usize = 0;
    assert(text@.take(0) =~= Seq::empty());
    proof {
        let f = comma_fields(text@.take(0));
        assert(f.drop_last() =~= Seq::empty());
        assert(out@ =~= named_windows(f.drop_last()));
    }
    while i < text.len()
        invariant
            i <= text@.len(),
            comma_fields(text@.take(i as int)).len() > 0,
            field@ == comma_fields(text@.take(i as int)).last(),
            out@ == named_windows(comma_fields(text@.take(i as int)).drop_last()),
        decreases text@.len() - i,
    {
        let c = text[i];
        let ghost before = comma_fields(text@.take(i as int));
        assert(text@.take(i + 1).drop_last() =~= text@.take(i as int));
        let ghost after = comma_fields(text@.take(i + 1));
        if c == ',' {
            add_window(&mut out, field.as_slice(), Ghost(before.drop_last()));
            proof {
                assert(before.drop_last().push(before.last()) =~= before);
                assert(after.drop_last() =~= before);
            }
            field = Vec::new();
        } else {
            field.push(c);
            assert(after.drop_last() =~= before.drop_last());
        }
        i = i + 1;
    }
    assert(text@.take(i as int) =~= text@);
    let ghost all = comma_fields(text@);
    add_window(&mut out, field.as_slice(), Ghost(all.drop_last()));
    assert(all.drop_last().push(all.last()) =~= all);
    out
}

fn add_window(out: &mut HashSet<u32>, field: &[char], Ghost(before): Ghost<Seq<Seq<char>>>)
    requires
        old(out)@ == named_windows(before),
    ensures
        final(out)@ == named_windows(before.push(field@)),
{
    let ghost start = out@;
    let ghost fields = before.push(field@);
    match parse_window(field) {
        Some(x) => {
            out.insert(x);
        },
        None => {},
    }
    proof {
        assert forall|x: u32| out@.contains(x) implies named_windows(fields).contains(x) by {
            if start.contains(x) {
                let k = choose|k: int|
                    0 <= k < before.len() && named_window(#[trigger] before[k]) == Some(x as int);
                assert(named_window(fields[k]) == Some(x as int));
            } else {
                assert(named_window(fields[before.len() as int]) == Some(x as int));
            }
        }
        assert forall|x: u32| named_windows(fields).contains(x) implies out@.contains(x) by {
            let k = choose|k: int|
                0 <= k < fields.len() && named_window(#[trigger] fields[k]) == Some(x as int);
            if k < before.len() {
                assert(named_window(before[k]) == Some(x as int));
                assert(start.contains(x));
            }
        }
        assert(out@ =~= named_windows(fields));
    }
}

/// Whether the walk of a window is to be reported.
pub fn scene_walk_debug_enabled_for(all: bool, xids: &HashSet<u32>, host_xid: u32) -> (r: bool)
    ensures
        r == (all || xids@.contains(host_xid)),
{
    all || xids.contains(&host_xid)
}

} // verus!
