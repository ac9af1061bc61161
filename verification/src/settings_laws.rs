//! What settings mean: numbers are read as they are written, and lists are taken
//! apart at their commas.

use vstd::prelude::*;

use crate::ledger::{decimal, digit_text};
use crate::settings::{
    blank, comma_fields, digit_value, digits_value, is_digit, named_window, named_windows, number_of, switches_on, trimmed,
    trimmed_end, trimmed_start, unsigned_part,
};

verus! {

proof fn lemma_digit_text(d: nat)
    requires
        d < 10,
    ensures
        digit_text(d).len() == 1,
        digit_value(digit_text(d)[0]) == Some(d as int),
        digit_text(d)[0] != '+',
{
    reveal_strlit("0");
    reveal_strlit("1");
    reveal_strlit("2");
    reveal_strlit("3");
    reveal_strlit("4");
    reveal_strlit("5");
    reveal_strlit("6");
    reveal_strlit("7");
    reveal_strlit("8");
    reveal_strlit("9");
}

proof fn lemma_decimal(n: nat)
    ensures
        decimal(n).len() > 0,
        decimal(n)[0] != '+',
        forall|i: int| 0 <= i < decimal(n).len() ==> is_digit(#[trigger] decimal(n)[i], 10),
        digits_value(decimal(n), 10) == n,
    decreases n,
{
    let d = n % 10;
    lemma_digit_text(d);
    let one = digit_text(d);
    let s = decimal(n);
    if n < 10 {
        assert(s == one);
        assert(s.drop_last() =~= Seq::<char>::empty());
        assert(digits_value(s.drop_last(), 10) == 0);
        assert(s.last() == one[0]);
    } else {
        let head = decimal(n / 10);
        lemma_decimal(n / 10);
        assert(s == head + one);
        assert(s.drop_last() =~= head);
        assert(s.last() == one[0]);
        assert forall|i: int| 0 <= i < s.len() implies is_digit(#[trigger] s[i], 10) by {
            if i < head.len() {
                assert(s[i] == head[i]);
            }
        }
        assert(s[0] == head[0]);
    }
}

/// A number in decimal is read as that number, unless it is above the bound; then,
/// as for a text without a digit, nothing is read.
pub proof fn a_written_number_is_read(n: nat, max: int)
    requires
        max >= 0,
    ensures
        n <= max ==> number_of(decimal(n), 10, max) == Some(n as int),
        n > max ==> number_of(decimal(n), 10, max) is None,
        number_of(Seq::empty(), 10, max) is None,
{
    lemma_decimal(n);
    assert(unsigned_part(decimal(n)) == decimal(n));
}

/// What is read obeys its digits: one more digit multiplies by the base and adds.
pub proof fn one_more_digit_multiplies(s: Seq<char>, c: char, radix: int, max: int)
    requires
        2 <= radix <= 36,
        number_of(s.push(c), radix, max) is Some,
        s.len() > 1 || (s.len() == 1 && s[0] != '+'),
    ensures
        ({
            let d: int = if '0' <= c <= '9' {
                c as int - '0' as int
            } else if 'a' <= c <= 'z' {
                c as int - 'a' as int + 10
            } else {
                c as int - 'A' as int + 10
            };
            &&& 0 <= d < radix
            &&& number_of(s, radix, max) is Some
            &&& number_of(s.push(c), radix, max)->0 == number_of(s, radix, max)->0 * radix + d
        }),
{
    let t = s.push(c);
    let body = unsigned_part(t);
    let head = unsigned_part(s);
    assert(t[0] == s[0]);
    assert(body =~= head.push(c));
    assert(body.drop_last() =~= head);
    assert(is_digit(body[body.len() - 1], radix));
    assert forall|i: int| 0 <= i < head.len() implies is_digit(#[trigger] head[i], radix) by {
        assert(body[i] == head[i]);
    }
    let v = digits_value(head, radix);
    lemma_value_not_negative(head, radix);
    let d = digit_value(c)->0;
    assert(v * radix >= v) by (nonlinear_arith)
        requires
            v >= 0,
            radix >= 1,
    ;
}

proof fn lemma_value_not_negative(s: Seq<char>, radix: int)
    requires
        radix >= 2,
        forall|i: int| 0 <= i < s.len() ==> is_digit(#[trigger] s[i], radix),
    ensures
        digits_value(s, radix) >= 0,
    decreases s.len(),
{
    if s.len() > 0 {
        let t = s.drop_last();
        assert forall|i: int| 0 <= i < t.len() implies is_digit(#[trigger] t[i], radix) by {
            assert(t[i] == s[i]);
        }
        lemma_value_not_negative(t, radix);
        assert(is_digit(s[s.len() - 1], radix));
        let v = digits_value(t, radix);
        assert(v * radix >= 0) by (nonlinear_arith)
            requires
                v >= 0,
                radix >= 2,
        ;
    }
}

proof fn lemma_trimmed_end(s: Seq<char>)
    ensures
        trimmed_end(s).len() <= s.len(),
        trimmed_end(s) == s.take(trimmed_end(s).len() as int),
        forall|i: int| trimmed_end(s).len() <= i < s.len() ==> blank(#[trigger] s[i]),
        trimmed_end(s).len() > 0 ==> !blank(trimmed_end(s).last()),
    decreases s.len(),
{
    if s.len() > 0 && blank(s.last()) {
        let t = s.drop_last();
        lemma_trimmed_end(t);
        assert(t.take(trimmed_end(t).len() as int) =~= s.take(trimmed_end(t).len() as int));
        assert forall|i: int| trimmed_end(s).len() <= i < s.len() implies blank(#[trigger] s[i]) by {
            if i < t.len() {
                assert(t[i] == s[i]);
            }
        }
    } else {
        assert(s.take(s.len() as int) =~= s);
    }
}

proof fn lemma_trimmed_start(s: Seq<char>)
    ensures
        trimmed_start(s).len() <= s.len(),
        trimmed_start(s) == s.skip(s.len() - trimmed_start(s).len()),
        forall|i: int| 0 <= i < s.len() - trimmed_start(s).len() ==> blank(#[trigger] s[i]),
        trimmed_start(s).len() > 0 ==> !blank(trimmed_start(s)[0]),
    decreases s.len(),
{
    if s.len() > 0 && blank(s[0]) {
        let t = s.drop_first();
        lemma_trimmed_start(t);
        let n = trimmed_start(t).len();
        assert(t.skip(t.len() - n) =~= s.skip(s.len() - n));
        assert forall|i: int| 0 <= i < s.len() - n implies blank(#[trigger] s[i]) by {
            if i > 0 {
                assert(t[i - 1] == s[i]);
            }
        }
    } else {
        assert(s.skip(0) =~= s);
    }
}

/// Trimming takes white space off both ends and nothing else: what is left stands
/// in the text with only white space before and behind it, and neither begins nor
/// ends with any.
pub proof fn trimming_takes_only_white_space(s: Seq<char>)
    ensures
        exists|i: int, j: int|
            0 <= i <= j <= s.len() && trimmed(s) == #[trigger] s.subrange(i, j) && (forall|k: int|
                0 <= k < i ==> blank(#[trigger] s[k])) && (forall|k: int|
                j <= k < s.len() ==> blank(#[trigger] s[k])),
        trimmed(s).len() > 0 ==> !blank(trimmed(s)[0]) && !blank(trimmed(s).last()),
{
    let e = trimmed_end(s);
    lemma_trimmed_end(s);
    lemma_trimmed_start(e);
    let t = trimmed_start(e);
    let i = e.len() - t.len();
    let j = e.len() as int;
    assert(t =~= s.subrange(i, j));
    assert forall|k: int| 0 <= k < i implies blank(#[trigger] s[k]) by {
        assert(e[k] == s[k]);
    }
    if t.len() > 0 {
        assert(t.last() == e.last());
    }
}

/// Texts with commas between them.
pub open spec fn with_commas(fields: Seq<Seq<char>>) -> Seq<char>
    decreases fields.len(),
{
    if fields.len() == 0 {
        Seq::empty()
    } else if fields.len() == 1 {
        fields[0]
    } else {
        with_commas(fields.drop_last()).push(',') + fields.last()
    }
}

/// A list is taken apart at its commas: there is always a field, no field has a
/// comma, and with commas between them the fields are the text again.
pub proof fn a_list_is_taken_apart_at_its_commas(s: Seq<char>)
    ensures
        comma_fields(s).len() > 0,
        forall|i: int|
            0 <= i < comma_fields(s).len() ==> !(#[trigger] comma_fields(s)[i]).contains(','),
        with_commas(comma_fields(s)) == s,
    decreases s.len(),
{
    let f = comma_fields(s);
    if s.len() == 0 {
        assert(with_commas(f) =~= s);
    } else {
        let t = s.drop_last();
        let c = s.last();
        a_list_is_taken_apart_at_its_commas(t);
        let before = comma_fields(t);
        let last = before.last();
        assert(before[before.len() - 1] == last);
        if c == ',' {
            assert(f == before.push(Seq::empty()));
            assert(f.drop_last() =~= before);
            assert(with_commas(f) =~= s);
            assert forall|i: int| 0 <= i < f.len() implies !(#[trigger] f[i]).contains(',') by {
                if i < before.len() {
                    assert(f[i] == before[i]);
                }
            }
        } else {
            let longer = last.push(c);
            assert(f == before.drop_last().push(longer));
            assert(f.drop_last() =~= before.drop_last());
            assert(!longer.contains(',')) by {
                if longer.contains(',') {
                    let k = choose|k: int| 0 <= k < longer.len() && longer[k] == ',';
                    if k < last.len() {
                        assert(last[k] == ',');
                        assert(last.contains(','));
                    }
                }
            }
            assert forall|i: int| 0 <= i < f.len() implies !(#[trigger] f[i]).contains(',') by {
                if i < before.len() - 1 {
                    assert(f[i] == before[i]);
                }
            }
            assert(f.last() == longer && f.len() == before.len());
            if before.len() == 1 {
                assert(with_commas(f) =~= s);
            } else {
                let head = with_commas(before.drop_last()).push(',');
                assert(with_commas(before) == head + last);
                assert(with_commas(f) == head + longer);
                assert((head + last).push(c) =~= head + longer);
                assert(s =~= t.push(c));
            }
        }
    }
}

/// A window is named by the hexadecimal number that its field is, with or without
/// `0x` before it and white space around it; by the decimal number if the field is
/// no hexadecimal one; and by nothing if it is neither or empty.
pub proof fn a_window_is_named_in_hexadecimal_first(field: Seq<char>)
    ensures
        ({
            let t = trimmed(field);
            let bare = if t.len() >= 2 && t[0] == '0' && (t[1] == 'x' || t[1] == 'X') {
                t.skip(2)
            } else {
                t
            };
            let hex = number_of(bare, 16, 0xffff_ffff);
            &&& t.len() == 0 ==> named_window(field) is None
            &&& t.len() > 0 && hex is Some ==> named_window(field) == hex
            &&& t.len() > 0 && hex is None ==> named_window(field) == number_of(t, 10, 0xffff_ffff)
        }),
{
}

/// A list names the windows that its fields name, and no other.
pub proof fn a_list_names_what_its_fields_name(s: Seq<char>, x: u32)
    ensures
        named_windows(comma_fields(s)).contains(x) <==> exists|i: int|
            0 <= i < comma_fields(s).len() && named_window(#[trigger] comma_fields(s)[i]) == Some(
                x as int,
            ),
{
}

/// Five words switch a setting on, and nothing else does.
pub proof fn five_words_switch_on(text: Seq<char>)
    ensures
        text == seq!['1'] ==> switches_on(text),
        text == seq!['t', 'r', 'u', 'e'] ==> switches_on(text),
        text == seq!['T', 'R', 'U', 'E'] ==> switches_on(text),
        text == seq!['y', 'e', 's'] ==> switches_on(text),
        text == seq!['Y', 'E', 'S'] ==> switches_on(text),
        switches_on(text) ==> text == seq!['1'] || text == seq!['t', 'r', 'u', 'e'] || text == seq![
            'T',
            'R',
            'U',
            'E',
        ] || text == seq!['y', 'e', 's'] || text == seq!['Y', 'E', 'S'],
{
    reveal_strlit("1");
    reveal_strlit("true");
    reveal_strlit("TRUE");
    reveal_strlit("yes");
    reveal_strlit("YES");
    assert("1"@ =~= seq!['1']);
    assert("true"@ =~= seq!['t', 'r', 'u', 'e']);
    assert("TRUE"@ =~= seq!['T', 'R', 'U', 'E']);
    assert("yes"@ =~= seq!['y', 'e', 's']);
    assert("YES"@ =~= seq!['Y', 'E', 'S']);
}

} // verus!
