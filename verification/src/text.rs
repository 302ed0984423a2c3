//! Strings as sequences of characters.

use vstd::prelude::*;
use vstd::string::{StrSliceExecFns, StringExecFns};

verus! {

/// The contents of a sequence of strings.
pub open spec fn views(names: Seq<String>) -> Seq<Seq<char>> {
    Seq::new(names.len(), |i: int| names[i]@)
}

/// The contents of an optional string.
pub open spec fn opt_view(text: Option<String>) -> Option<Seq<char>> {
    match text {
        Some(s) => Some(s@),
        None => None,
    }
}

/// A copy of an optional string.
pub fn clone_opt(text: &Option<String>) -> (copy: Option<String>)
    ensures
        opt_view(copy) == opt_view(*text),
{
    match text {
        Some(s) => Some(s.clone()),
        None => None,
    }
}

/// A copy of a list of strings.
pub fn clone_strings(list: &Vec<String>) -> (copy: Vec<String>)
    ensures
        views(copy@) == views(list@),
{
    let mut copy: Vec<String> = Vec::new();
    let mut i: usize = 0;
    while i < list.len()
        invariant
            i <= list@.len(),
            copy@.len() == i,
            views(copy@) == views(list@.subrange(0, i as int)),
        decreases list@.len() - i,
    {
        let ghost before = copy@;
        let item = list[i].clone();
        copy.push(item);
        proof {
            let target = views(list@.subrange(0, i + 1));
            assert(views(copy@).len() == target.len());
            assert forall|j: int| 0 <= j < target.len() implies views(copy@)[j] == target[j] by {
                if j < i {
                    assert(views(before)[j] == views(list@.subrange(0, i as int))[j]);
                }
            }
            assert(views(copy@) =~= target);
        }
        i += 1;
    }
    assert(list@.subrange(0, i as int) =~= list@);
    copy
}

/// Whether two strings hold the same characters.
pub fn str_eq(a: &str, b: &str) -> (same: bool)
    ensures
        same == (a@ == b@),
{
    let left = a.to_owned();
    let right = b.to_owned();
    left == right
}

/// The characters of a string, in order.
pub fn chars_of(s: &str) -> (chars: Vec<char>)
    ensures
        chars@ == s@,
{
    let n = s.unicode_len();
    let mut chars: Vec<char> = Vec::new();
    let mut i: usize = 0;
    while i < n
        invariant
            i <= n,
            n == s@.len(),
            chars@ == s@.subrange(0, i as int),
        decreases n - i,
    {
        let c = s.get_char(i);
        chars.push(c);
        assert(chars@ =~= s@.subrange(0, i + 1));
        i += 1;
    }
    assert(s@.subrange(0, n as int) =~= s@);
    chars
}

/// Calls `String::push` of the standard library. Believed, not proved: the
/// string afterwards is the string before with the character at its end.
#[verifier::external_body]
fn push_char(s: &mut String, c: char)
    ensures
        final(s)@ == old(s)@.push(c),
{
    s.push(c);
}

/// The string made of the characters `chars[from..to]`.
pub fn string_of(chars: &Vec<char>, from: usize, to: usize) -> (s: String)
    requires
        from <= to <= chars@.len(),
    ensures
        s@ == chars@.subrange(from as int, to as int),
{
    let mut s = String::new();
    let mut i: usize = from;
    while i < to
        invariant
            from <= i <= to,
            to <= chars@.len(),
            s@ == chars@.subrange(from as int, i as int),
        decreases to - i,
    {
        push_char(&mut s, chars[i]);
        assert(s@ =~= chars@.subrange(from as int, i + 1));
        i += 1;
    }
    s
}

/// Blank characters, as Unicode lists them under white space: tab to
/// carriage return, space, next line, no-break space, the ogham space
/// mark, the spaces from en quad to hair space, line and paragraph
/// separator, narrow no-break space, medium mathematical space and
/// ideographic space.
pub open spec fn is_blank(c: char) -> bool {
    ||| '\u{9}' <= c <= '\u{d}'
    ||| c == ' '
    ||| c == '\u{85}'
    ||| c == '\u{a0}'
    ||| c == '\u{1680}'
    ||| '\u{2000}' <= c <= '\u{200a}'
    ||| c == '\u{2028}'
    ||| c == '\u{2029}'
    ||| c == '\u{202f}'
    ||| c == '\u{205f}'
    ||| c == '\u{3000}'
}

/// The first position at or after `from`, and before `to`, that holds no
/// blank; `to` where there is none.
pub open spec fn skip_blanks(s: Seq<char>, from: int, to: int) -> int
    decreases to - from,
{
    if 0 <= from < to <= s.len() && is_blank(s[from]) {
        skip_blanks(s, from + 1, to)
    } else {
        from
    }
}

/// The position behind the last character before `to`, and at or after
/// `from`, that is no blank; `from` where there is none.
pub open spec fn drop_blanks(s: Seq<char>, from: int, to: int) -> int
    decreases to - from,
{
    if 0 <= from < to <= s.len() && is_blank(s[to - 1]) {
        drop_blanks(s, from, to - 1)
    } else {
        to
    }
}

/// The bounds of `s[from..to]` without the blanks at its ends.
pub open spec fn trim_bounds(s: Seq<char>, from: int, to: int) -> (int, int) {
    let start = skip_blanks(s, from, to);
    (start, drop_blanks(s, start, to))
}

/// `s` without the blanks at its ends.
pub open spec fn trimmed(s: Seq<char>) -> Seq<char> {
    let (from, to) = trim_bounds(s, 0, s.len() as int);
    s.subrange(from, to)
}

/// The bounds of `s[from..to]` without the blanks at its ends.
pub fn trim_range(s: &Vec<char>, from: usize, to: usize) -> (bounds: (usize, usize))
    requires
        from <= to <= s@.len(),
    ensures
        (bounds.0 as int, bounds.1 as int) == trim_bounds(s@, from as int, to as int),
        from <= bounds.0 <= bounds.1 <= to,
{
    let mut start = from;
    while start < to && blank(s[start])
        invariant
            from <= start <= to <= s@.len(),
            skip_blanks(s@, from as int, to as int) == skip_blanks(s@, start as int, to as int),
        decreases to - start,
    {
        start += 1;
    }
    let mut end = to;
    while start < end && blank(s[end - 1])
        invariant
            start <= end <= to <= s@.len(),
            drop_blanks(s@, start as int, to as int) == drop_blanks(s@, start as int, end as int),
        decreases end - start,
    {
        end -= 1;
    }
    (start, end)
}

/// Whether a character is blank.
pub fn blank(c: char) -> (b: bool)
    ensures
        b == is_blank(c),
{
    ('\u{9}' <= c && c <= '\u{d}') || c == ' ' || c == '\u{85}' || c == '\u{a0}' || c == '\u{1680}'
        || ('\u{2000}' <= c && c <= '\u{200a}') || c == '\u{2028}' || c == '\u{2029}' || c
        == '\u{202f}' || c == '\u{205f}' || c == '\u{3000}'
}

/// The value of a decimal digit.
pub open spec fn digit_value(c: char) -> Option<nat> {
    if '0' <= c <= '9' {
        Some((c as u32 - '0' as u32) as nat)
    } else {
        None
    }
}

/// The number that a string of decimal digits denotes; nothing where the
/// string is empty or holds anything but digits.
pub open spec fn decimal(s: Seq<char>) -> Option<nat>
    decreases s.len(),
{
    if s.len() == 0 {
        None
    } else if s.len() == 1 {
        digit_value(s[0])
    } else {
        match (decimal(s.drop_last()), digit_value(s.last())) {
            (Some(high), Some(low)) => Some(high * 10 + low),
            _ => None,
        }
    }
}

/// The number that `s` denotes as the standard library reads numbers:
/// decimal digits, with `+` before them or not, and no larger than `max`.
pub open spec fn number(s: Seq<char>, max: nat) -> Option<nat> {
    let digits = if s.len() > 0 && s[0] == '+' {
        s.subrange(1, s.len() as int)
    } else {
        s
    };
    match decimal(digits) {
        Some(n) => if n <= max {
            Some(n)
        } else {
            None
        },
        None => None,
    }
}

/// A longer string of digits denotes no smaller number.
proof fn lemma_decimal_grows(s: Seq<char>, k: int)
    requires
        1 <= k <= s.len(),
        decimal(s) is Some,
    ensures
        decimal(s.subrange(0, k)) is Some,
        decimal(s.subrange(0, k))->0 <= decimal(s)->0,
    decreases s.len() - k,
{
    if k < s.len() {
        lemma_decimal_grows(s, k + 1);
        let longer = s.subrange(0, k + 1);
        assert(longer.drop_last() =~= s.subrange(0, k));
    } else {
        assert(s.subrange(0, k) =~= s);
    }
}

/// The number that `s[from..to]` denotes, where it fits 64 bits.
pub fn parse_u64(s: &Vec<char>, from: usize, to: usize) -> (parsed: Option<u64>)
    requires
        from <= to <= s@.len(),
    ensures
        match parsed {
            Some(n) => number(s@.subrange(from as int, to as int), u64::MAX as nat) == Some(
                n as nat,
            ),
            None => number(s@.subrange(from as int, to as int), u64::MAX as nat) is None,
        },
{
    let ghost text = s@.subrange(from as int, to as int);
    let first = if from < to && s[from] == '+' {
        from + 1
    } else {
        from
    };
    let ghost digits = s@.subrange(first as int, to as int);
    proof {
        if from < to && s@[from as int] == '+' {
            assert(text[0] == '+');
            assert(digits =~= text.subrange(1, text.len() as int));
        } else {
            if text.len() > 0 {
                assert(text[0] == s@[from as int]);
            }
            assert(digits =~= text);
        }
    }
    if first == to {
        return None;
    }
    let mut value: u64 = 0;
    let mut i = first;
    while i < to
        invariant
            first <= i <= to <= s@.len(),
            first < to,
            digits == s@.subrange(first as int, to as int),
            number(s@.subrange(from as int, to as int), u64::MAX as nat) == (match decimal(digits) {
                Some(n) => if n <= u64::MAX {
                    Some(n)
                } else {
                    None
                },
                None => None,
            }),
            i > first ==> decimal(digits.subrange(0, i - first)) == Some(value as nat),
            i == first ==> value == 0,
        decreases to - i,
    {
        let c = s[i];
        let ghost prefix = digits.subrange(0, i - first);
        let ghost next = digits.subrange(0, i + 1 - first);
        proof {
            assert(next.drop_last() =~= prefix);
            assert(next.last() == c);
        }
        if !('0' <= c && c <= '9') {
            proof {
                assert(decimal(next) is None);
                if decimal(digits) is Some {
                    lemma_decimal_grows(digits, i + 1 - first);
                }
            }
            return None;
        }
        let low = (c as u32 - '0' as u32) as u64;
        if value > (u64::MAX - low) / 10 {
            proof {
                assert(value * 10 + low > u64::MAX) by (nonlinear_arith)
                    requires
                        value > (u64::MAX - low) / 10,
                        low <= 9,
                ;
                if i == first {
                } else {
                    assert(decimal(next) == Some((value * 10 + low) as nat));
                    if decimal(digits) is Some {
                        lemma_decimal_grows(digits, i + 1 - first);
                    }
                }
            }
            return None;
        }
        assert(value * 10 + low <= u64::MAX) by (nonlinear_arith)
            requires
                value <= (u64::MAX - low) / 10,
                low <= 9,
        ;
        value = value * 10 + low;
        i += 1;
    }
    assert(digits.subrange(0, to - first) =~= digits);
    Some(value)
}

/// Appends the characters of `more` to `s`.
pub fn push_str(s: &mut String, more: &str)
    ensures
        final(s)@ == old(s)@ + more@,
{
    s.append(more);
}

/// The first position at or after `from`, and before `to`, that holds the
/// character `c`; `to` where there is none.
pub open spec fn index_of(s: Seq<char>, c: char, from: int, to: int) -> int
    decreases to - from,
{
    if 0 <= from < to <= s.len() && s[from] != c {
        index_of(s, c, from + 1, to)
    } else {
        from
    }
}

/// The first position in `s[from..to]` that holds `c`, or `to`.
pub fn find_char(s: &Vec<char>, c: char, from: usize, to: usize) -> (at: usize)
    requires
        from <= to <= s@.len(),
    ensures
        at == index_of(s@, c, from as int, to as int),
        from <= at <= to,
{
    let mut at = from;
    while at < to && s[at] != c
        invariant
            from <= at <= to <= s@.len(),
            index_of(s@, c, from as int, to as int) == index_of(s@, c, at as int, to as int),
        decreases to - at,
    {
        at += 1;
    }
    at
}

/// `s[from..]` starts with `prefix`.
pub open spec fn starts_with(s: Seq<char>, from: int, prefix: Seq<char>) -> bool {
    0 <= from && from + prefix.len() <= s.len() && s.subrange(from, from + prefix.len()) == prefix
}

/// Whether `s[from..]` starts with `prefix`.
pub fn has_prefix(s: &Vec<char>, from: usize, prefix: &str) -> (found: bool)
    requires
        from <= s@.len(),
    ensures
        found == starts_with(s@, from as int, prefix@),
{
    let n = prefix.unicode_len();
    let limit = s.len();
    if n > limit - from {
        return false;
    }
    let mut i: usize = 0;
    while i < n
        invariant
            i <= n,
            n == prefix@.len(),
            limit == s@.len(),
            from + n <= limit,
            s@.subrange(from as int, from + i) == prefix@.subrange(0, i as int),
        decreases n - i,
    {
        if s[from + i] != prefix.get_char(i) {
            proof {
                if s@.subrange(from as int, from + n) == prefix@ {
                    assert(s@.subrange(from as int, from + n)[i as int] == prefix@[i as int]);
                }
            }
            return false;
        }
        assert(s@.subrange(from as int, from + i + 1) =~= s@.subrange(from as int, from + i).push(
            s@[from + i],
        ));
        assert(prefix@.subrange(0, i + 1) =~= prefix@.subrange(0, i as int).push(prefix@[i as int]));
        i += 1;
    }
    assert(prefix@.subrange(0, n as int) =~= prefix@);
    true
}

/// Whether `s[from..to]` is `word`.
pub fn is_word(s: &Vec<char>, from: usize, to: usize, word: &str) -> (same: bool)
    requires
        from <= to <= s@.len(),
    ensures
        same == (s@.subrange(from as int, to as int) == word@),
{
    let n = word.unicode_len();
    if n != to - from {
        return false;
    }
    has_prefix(s, from, word)
}

/// How two texts stand in the order of the dictionary from `from` on, the
/// characters by their code points: negative where `a` comes first, zero
/// where they are the same, positive where `b` comes first.
pub open spec fn text_order(a: Seq<char>, b: Seq<char>, from: int) -> int
    decreases a.len() - from,
{
    if from >= a.len() {
        if from >= b.len() {
            0
        } else {
            -1
        }
    } else if from >= b.len() {
        1
    } else if a[from] < b[from] {
        -1
    } else if a[from] > b[from] {
        1
    } else {
        text_order(a, b, from + 1)
    }
}

/// `a` comes before `b` in the order of the dictionary.
pub open spec fn text_before(a: Seq<char>, b: Seq<char>) -> bool {
    text_order(a, b, 0) < 0
}

/// Texts that stand level in the order are the same from `from` on.
proof fn lemma_text_level(a: Seq<char>, b: Seq<char>, from: int)
    requires
        0 <= from,
        text_order(a, b, from) == 0,
    ensures
        a.len() == b.len() || (from >= a.len() && from >= b.len()),
        forall|i: int| from <= i < a.len() ==> a[i] == b[i],
    decreases a.len() - from,
{
    if from < a.len() && from < b.len() {
        lemma_text_level(a, b, from + 1);
    }
}

/// The order read the other way round is the opposite.
proof fn lemma_text_turned(a: Seq<char>, b: Seq<char>, from: int)
    requires
        0 <= from,
    ensures
        text_order(b, a, from) == -text_order(a, b, from),
        from <= a.len() && from <= b.len() && a.subrange(from, a.len() as int) == b.subrange(
            from,
            b.len() as int,
        ) ==> text_order(a, b, from) == 0,
    decreases a.len() - from,
{
    if from < a.len() && from < b.len() {
        lemma_text_turned(a, b, from + 1);
        if a.subrange(from, a.len() as int) == b.subrange(from, b.len() as int) {
            assert(a.subrange(from, a.len() as int)[0] == a[from]);
            assert(b.subrange(from, b.len() as int)[0] == b[from]);
            assert(a.subrange(from + 1, a.len() as int) =~= a.subrange(
                from,
                a.len() as int,
            ).subrange(1, a.len() - from));
            assert(b.subrange(from + 1, b.len() as int) =~= b.subrange(
                from,
                b.len() as int,
            ).subrange(1, b.len() - from));
        }
    } else if from <= a.len() && from <= b.len() && a.subrange(from, a.len() as int)
        == b.subrange(from, b.len() as int) {
        assert(a.subrange(from, a.len() as int).len() == b.subrange(from, b.len() as int).len());
    }
}

/// What comes before a text that comes before a third comes before the
/// third.
proof fn lemma_text_chain(a: Seq<char>, b: Seq<char>, c: Seq<char>, from: int)
    requires
        0 <= from,
        text_order(a, b, from) < 0,
        text_order(b, c, from) < 0,
    ensures
        text_order(a, c, from) < 0,
    decreases a.len() - from,
{
    if from < a.len() && from < b.len() && from < c.len() && a[from] == b[from] && b[from]
        == c[from] {
        lemma_text_chain(a, b, c, from + 1);
    }
}

/// The order of the dictionary is an order: no text comes before itself,
/// of two different texts one comes before the other and not the other way
/// round, and what comes before a text comes before what that text comes
/// before.
pub proof fn lemma_text_order(a: Seq<char>, b: Seq<char>, c: Seq<char>)
    ensures
        !text_before(a, a),
        a != b ==> (text_before(a, b) != text_before(b, a)),
        text_before(a, b) && text_before(b, c) ==> text_before(a, c),
{
    lemma_text_turned(a, a, 0);
    assert(a.subrange(0, a.len() as int) == a.subrange(0, a.len() as int));
    lemma_text_turned(a, b, 0);
    if text_order(a, b, 0) == 0 {
        lemma_text_level(a, b, 0);
        assert(a =~= b);
    }
    if text_before(a, b) && text_before(b, c) {
        lemma_text_chain(a, b, c, 0);
    }
}

/// Whether `a` comes before `b` in the order of the dictionary.
pub fn comes_before(a: &str, b: &str) -> (first: bool)
    ensures
        first == text_before(a@, b@),
{
    let x = chars_of(a);
    let y = chars_of(b);
    let mut i: usize = 0;
    while i < x.len() && i < y.len()
        invariant
            x@ == a@,
            y@ == b@,
            i <= x@.len(),
            i <= y@.len(),
            text_order(a@, b@, 0) == text_order(a@, b@, i as int),
        decreases x@.len() - i,
    {
        let p: char = x[i];
        let q: char = y[i];
        if p < q {
            return true;
        }
        if p > q {
            return false;
        }
        i += 1;
    }
    i < y.len()
}

} // verus!
