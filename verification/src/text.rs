//! Comparing and matching text, character by character.

use vstd::prelude::*;

verus! {

/// Whether two strings hold the same characters.
pub fn str_eq(a: &str, b: &str) -> (same: bool)
    ensures
        same == (a@ == b@),
{
    let n = a.unicode_len();
    let m = b.unicode_len();
    if n != m {
        return false;
    }
    let mut i: usize = 0;
    while i < n
        invariant
            n == a@.len(),
            m == b@.len(),
            n == m,
            i <= n,
            forall|k: int| 0 <= k < i ==> a@[k] == b@[k],
        decreases n - i,
    {
        if a.get_char(i) != b.get_char(i) {
            return false;
        }
        i = i + 1;
    }
    assert(a@ =~= b@);
    true
}

/// Whether `s` begins with `prefix`.
pub fn starts_with(s: &str, prefix: &str) -> (yes: bool)
    ensures
        yes == (prefix@.len() <= s@.len() && s@.subrange(0, prefix@.len() as int) == prefix@),
{
    let n = s.unicode_len();
    let p = prefix.unicode_len();
    if p > n {
        return false;
    }
    let mut i: usize = 0;
    while i < p
        invariant
            n == s@.len(),
            p == prefix@.len(),
            p <= n,
            i <= p,
            forall|k: int| 0 <= k < i ==> s@[k] == prefix@[k],
        decreases p - i,
    {
        if s.get_char(i) != prefix.get_char(i) {
            assert(s@.subrange(0, p as int)[i as int] != prefix@[i as int]);
            return false;
        }
        i = i + 1;
    }
    assert(s@.subrange(0, p as int) =~= prefix@);
    true
}


/// The character of a decimal digit.
pub open spec fn digit_char(d: int) -> char {
    if d == 0 { '0' } else if d == 1 { '1' } else if d == 2 { '2' } else if d == 3 { '3' }
    else if d == 4 { '4' } else if d == 5 { '5' } else if d == 6 { '6' } else if d == 7 { '7' }
    else if d == 8 { '8' } else { '9' }
}

/// Whether a character is an ASCII decimal digit.
pub open spec fn is_digit(c: char) -> bool {
    48 <= c as int <= 57
}

/// The value of a decimal digit character.
pub open spec fn digit_value(c: char) -> int {
    c as int - 48
}

/// The decimal digits of a natural number, most significant first, with no leading zero.
pub open spec fn decimal_nat(n: nat) -> Seq<char>
    decreases n,
{
    if n < 10 {
        seq![digit_char(n as int)]
    } else {
        decimal_nat(n / 10).push(digit_char((n % 10) as int))
    }
}

/// An integer written in decimal, with a leading `-` when negative.
pub open spec fn decimal(n: int) -> Seq<char> {
    if n < 0 {
        seq!['-'] + decimal_nat((-n) as nat)
    } else {
        decimal_nat(n as nat)
    }
}

/// Whether every character is a decimal digit.
pub open spec fn all_digits(s: Seq<char>) -> bool {
    forall|i: int| 0 <= i < s.len() ==> is_digit(#[trigger] s[i])
}

/// The value of a run of decimal digits.
pub open spec fn digits_value(s: Seq<char>) -> int
    decreases s.len(),
{
    if s.len() == 0 {
        0
    } else {
        digits_value(s.drop_last()) * 10 + digit_value(s.last())
    }
}

/// What `str::parse::<i32>` makes of a text: an optional `+` or `-`, then at least one digit,
/// and nothing else; a value outside `i32` does not parse.
pub open spec fn spec_parse_i32(s: Seq<char>) -> Option<int> {
    let signed = s.len() > 0 && (s[0] == '+' || s[0] == '-');
    let body = if signed { s.drop_first() } else { s };
    let value = if signed && s[0] == '-' { -digits_value(body) } else { digits_value(body) };
    if body.len() > 0 && all_digits(body) && i32::MIN <= value <= i32::MAX {
        Some(value)
    } else {
        None
    }
}

/// What `str::parse::<usize>` makes of a text: an optional `+`, then at least one digit, and
/// nothing else; a value beyond `usize` does not parse.
pub open spec fn spec_parse_usize(s: Seq<char>) -> Option<int> {
    let body = if s.len() > 0 && s[0] == '+' { s.drop_first() } else { s };
    if body.len() > 0 && all_digits(body) && digits_value(body) <= usize::MAX {
        Some(digits_value(body))
    } else {
        None
    }
}

/// A natural number written in decimal parses back as itself.
pub proof fn lemma_parse_decimal_usize(n: int)
    requires
        0 <= n <= usize::MAX,
    ensures
        spec_parse_usize(decimal(n)) == Some(n),
{
    lemma_decimal_nat(n as nat);
    assert(is_digit(decimal(n)[0]));
    assert('+' as int == 43);
}

/// The index of the first `c` at or after `from`, or the length when there is none.
pub open spec fn find_from(s: Seq<char>, c: char, from: int) -> int
    decreases s.len() - from,
{
    if from >= s.len() {
        s.len() as int
    } else if s[from] == c {
        from
    } else {
        find_from(s, c, from + 1)
    }
}

/// The digits of a number only grow as digits are appended.
pub proof fn lemma_digits_value_prefix(s: Seq<char>, k: int)
    requires
        0 <= k <= s.len(),
        all_digits(s),
    ensures
        0 <= digits_value(s.subrange(0, k)) <= digits_value(s),
    decreases s.len(),
{
    if k == s.len() {
        assert(s.subrange(0, k) =~= s);
        lemma_digits_value_nonneg(s);
    } else {
        assert(s.drop_last().subrange(0, k) =~= s.subrange(0, k));
        lemma_digits_value_prefix(s.drop_last(), k);
        lemma_digits_value_nonneg(s.drop_last());
    }
}

/// A run of digits has a non-negative value.
pub proof fn lemma_digits_value_nonneg(s: Seq<char>)
    requires
        all_digits(s),
    ensures
        digits_value(s) >= 0,
    decreases s.len(),
{
    if s.len() > 0 {
        lemma_digits_value_nonneg(s.drop_last());
    }
}

/// Decimal digits read back as the number they write.
pub proof fn lemma_decimal_nat(n: nat)
    ensures
        decimal_nat(n).len() > 0,
        all_digits(decimal_nat(n)),
        digits_value(decimal_nat(n)) == n,
    decreases n,
{
    lemma_digit_char_value((n % 10) as int);
    if n >= 10 {
        lemma_decimal_nat(n / 10);
        let s = decimal_nat(n);
        assert(s.drop_last() =~= decimal_nat(n / 10));
        assert(s.last() == digit_char((n % 10) as int));
        assert((n / 10) * 10 + n % 10 == n);
    } else {
        assert(n % 10 == n);
        assert(decimal_nat(n).drop_last() =~= Seq::<char>::empty());
        assert(digits_value(Seq::<char>::empty()) == 0);
        assert(decimal_nat(n).last() == digit_char(n as int));
        assert(digit_value(digit_char(n as int)) == n);
        assert(digits_value(decimal_nat(n)) == digits_value(decimal_nat(n).drop_last()) * 10 + digit_value(decimal_nat(n).last()));
    }
}

/// A digit's character reads back as the digit.
pub proof fn lemma_digit_char_value(d: int)
    requires
        0 <= d < 10,
    ensures
        is_digit(digit_char(d)),
        digit_value(digit_char(d)) == d,
{
    assert('0' as int == 48 && '1' as int == 49 && '2' as int == 50 && '3' as int == 51 && '4' as int == 52
        && '5' as int == 53 && '6' as int == 54 && '7' as int == 55 && '8' as int == 56 && '9' as int == 57);
}

/// A number written in decimal parses back as itself.
pub proof fn lemma_parse_decimal(n: int)
    requires
        i32::MIN <= n <= i32::MAX,
    ensures
        spec_parse_i32(decimal(n)) == Some(n),
        forall|i: int| 0 <= i < decimal(n).len() ==> decimal(n)[i] != '|',
{
    if n < 0 {
        lemma_decimal_nat((-n) as nat);
        assert(decimal(n).drop_first() =~= decimal_nat((-n) as nat));
    } else {
        lemma_decimal_nat(n as nat);
    }
}

/// An integer written in decimal.
#[verifier::external_body]
pub fn decimal_string(n: i64) -> (text: String)
    ensures
        text@ == decimal(n as int),
{
    format!("{n}")
}

/// A natural number written in decimal.
#[verifier::external_body]
pub fn decimal_string_u64(n: u64) -> (text: String)
    ensures
        text@ == decimal(n as int),
{
    format!("{n}")
}

/// The index of the first `c` at or after `from`, or the length when there is none.
pub fn find_char(s: &str, c: char, from: usize) -> (at: usize)
    requires
        from <= s@.len(),
    ensures
        at == find_from(s@, c, from as int),
        from <= at <= s@.len(),
{
    let n = s.unicode_len();
    let mut i = from;
    while i < n
        invariant
            n == s@.len(),
            from <= i <= n,
            find_from(s@, c, from as int) == find_from(s@, c, i as int),
        decreases n - i,
    {
        if s.get_char(i) == c {
            return i;
        }
        i = i + 1;
    }
    if from > n {
        assert(false);
    }
    i
}

/// Parse the characters `s[from..to]` as `str::parse::<i32>` would parse them.
pub fn parse_i32_range(s: &str, from: usize, to: usize) -> (value: Option<i32>)
    requires
        from <= to <= s@.len(),
    ensures
        match value {
            Some(v) => spec_parse_i32(s@.subrange(from as int, to as int)) == Some(v as int),
            None => spec_parse_i32(s@.subrange(from as int, to as int)) is None,
        },
{
    let ghost t = s@.subrange(from as int, to as int);
    assert('0' as int == 48 && '9' as int == 57 && '+' as int == 43 && '-' as int == 45);
    if from == to {
        return None;
    }
    let first = s.get_char(from);
    assert(t[0] == first);
    let negative = first == '-';
    let start = if first == '+' || first == '-' { from + 1 } else { from };
    let ghost body = s@.subrange(start as int, to as int);
    assert(body =~= if first == '+' || first == '-' { t.drop_first() } else { t });
    if start == to {
        return None;
    }
    let mut acc: i64 = 0;
    let mut i = start;
    while i < to
        invariant
            from <= start <= i <= to <= s@.len(),
            body == s@.subrange(start as int, to as int),
            t == s@.subrange(from as int, to as int),
            t.len() > 0,
            t[0] == first,
            negative == (first == '-'),
            body == (if first == '+' || first == '-' { t.drop_first() } else { t }),
            start == (if first == '+' || first == '-' { from + 1 } else { from as int }),
            all_digits(body.subrange(0, i - start)),
            acc == digits_value(body.subrange(0, i - start)),
            0 <= acc <= 0x8000_0000,
        decreases to - i,
    {
        let c = s.get_char(i);
        assert(body[i - start] == c);
        if !('0' <= c && c <= '9') {
            assert(!is_digit(body[i - start]));
            return None;
        }
        let d = (c as u32 - '0' as u32) as i64;
        assert(d == digit_value(c));
        assert(body.subrange(0, i + 1 - start).drop_last() =~= body.subrange(0, i - start));
        assert(body.subrange(0, i + 1 - start).last() == c);
        acc = acc * 10 + d;
        i = i + 1;
        if acc > 0x8000_0000 {
            proof {
                let k = i - start;
                if all_digits(body) {
                    lemma_digits_value_prefix(body, k);
                }
            }
            return None;
        }
    }
    assert(body.subrange(0, to - start) =~= body);
    if negative {
        assert(-acc >= i32::MIN);
        Some((-acc) as i32)
    } else if acc <= 0x7fff_ffff {
        Some(acc as i32)
    } else {
        None
    }
}


/// Parse the characters `s[from..to]` as `str::parse::<usize>` would parse them.
pub fn parse_usize_range(s: &str, from: usize, to: usize) -> (value: Option<usize>)
    requires
        from <= to <= s@.len(),
    ensures
        match value {
            Some(v) => spec_parse_usize(s@.subrange(from as int, to as int)) == Some(v as int),
            None => spec_parse_usize(s@.subrange(from as int, to as int)) is None,
        },
{
    let ghost t = s@.subrange(from as int, to as int);
    assert('0' as int == 48 && '9' as int == 57 && '+' as int == 43);
    if from == to {
        return None;
    }
    let first = s.get_char(from);
    assert(t[0] == first);
    let start = if first == '+' { from + 1 } else { from };
    let ghost body = s@.subrange(start as int, to as int);
    assert(body =~= if first == '+' { t.drop_first() } else { t });
    if start == to {
        return None;
    }
    let mut acc: u128 = 0;
    let mut i = start;
    while i < to
        invariant
            from <= start <= i <= to <= s@.len(),
            body == s@.subrange(start as int, to as int),
            t == s@.subrange(from as int, to as int),
            t.len() > 0,
            t[0] == first,
            body == (if first == '+' { t.drop_first() } else { t }),
            all_digits(body.subrange(0, i - start)),
            acc == digits_value(body.subrange(0, i - start)),
            0 <= acc <= usize::MAX,
        decreases to - i,
    {
        let c = s.get_char(i);
        assert(body[i - start] == c);
        if !('0' <= c && c <= '9') {
            assert(!is_digit(body[i - start]));
            return None;
        }
        let d = (c as u32 - '0' as u32) as u128;
        assert(d == digit_value(c));
        assert(body.subrange(0, i + 1 - start).drop_last() =~= body.subrange(0, i - start));
        assert(body.subrange(0, i + 1 - start).last() == c);
        acc = acc * 10 + d;
        i = i + 1;
        if acc > usize::MAX as u128 {
            proof {
                let k = i - start;
                if all_digits(body) {
                    lemma_digits_value_prefix(body, k);
                }
            }
            return None;
        }
    }
    assert(body.subrange(0, to - start) =~= body);
    Some(acc as usize)
}

/// Whether a text holds no `c`.
pub open spec fn lacks(s: Seq<char>, c: char) -> bool {
    forall|i: int| 0 <= i < s.len() ==> s[i] != c
}

/// A number written in decimal is a run of digits, after a `-` when negative.
pub proof fn lemma_decimal_shape(n: int)
    ensures
        decimal(n).len() > 0,
        forall|i: int| 0 <= i < decimal(n).len() ==> is_digit(#[trigger] decimal(n)[i]) || (i == 0 && n < 0 && decimal(n)[i] == '-'),
        n >= 0 ==> is_digit(decimal(n)[0]),
        n < 0 ==> decimal(n)[0] == '-',
{
    if n < 0 {
        lemma_decimal_nat((-n) as nat);
        let d = decimal_nat((-n) as nat);
        assert forall|i: int| 0 <= i < decimal(n).len() implies is_digit(#[trigger] decimal(n)[i]) || (i == 0 && n < 0
            && decimal(n)[i] == '-') by {
            if i > 0 {
                assert(decimal(n)[i] == d[i - 1]);
            }
        }
    } else {
        lemma_decimal_nat(n as nat);
    }
}

/// No digit is a `:` or a `|`, and neither is a `-`.
pub proof fn lemma_decimal_lacks(n: int, c: char)
    requires
        c == ':' || c == '|',
    ensures
        lacks(decimal(n), c),
{
    lemma_decimal_shape(n);
    assert(':' as int == 58 && '|' as int == 124 && '-' as int == 45);
    assert forall|i: int| 0 <= i < decimal(n).len() implies decimal(n)[i] != c by {
        assert(is_digit(decimal(n)[i]) || decimal(n)[i] == '-');
    }
}

/// The first `c` of `a + [c] + b`, from any point in `a`, is the one after `a` when `a` holds
/// none.
pub proof fn lemma_find_after(a: Seq<char>, b: Seq<char>, c: char, from: int)
    requires
        lacks(a, c),
        0 <= from <= a.len(),
    ensures
        find_from(a + seq![c] + b, c, from) == a.len(),
    decreases a.len() - from,
{
    let s = a + seq![c] + b;
    if from < a.len() {
        assert(s[from] == a[from]);
        lemma_find_after(a, b, c, from + 1);
    } else {
        assert(s[from] == c);
    }
}

/// A character as `char::to_ascii_lowercase` maps it: `A` to `Z` become `a` to `z`, every other
/// character stays as it is.
pub open spec fn ascii_lower(c: char) -> char {
    if 'A' <= c && c <= 'Z' {
        ((c as u32) + 32) as char
    } else {
        c
    }
}

/// A text with each character mapped to its ASCII lower case.
pub open spec fn lower_text(s: Seq<char>) -> Seq<char> {
    s.map_values(|c: char| ascii_lower(c))
}

/// `str::to_ascii_lowercase`: std documents that ASCII letters `A` to `Z` are mapped to `a` to
/// `z` and every other character is left unchanged.
#[verifier::external_body]
pub fn to_lower(s: &str) -> (lower: String)
    ensures
        lower@ == lower_text(s@),
{
    s.to_ascii_lowercase()
}

/// Whether `needle` stands in `hay` starting at `i`.
pub open spec fn phrase_at(hay: Seq<char>, needle: Seq<char>, i: int) -> bool {
    0 <= i && i + needle.len() <= hay.len() && hay.subrange(i, i + needle.len()) == needle
}

/// Whether `needle` stands anywhere in `hay`.
pub open spec fn has_phrase(hay: Seq<char>, needle: Seq<char>) -> bool {
    exists|i: int| #[trigger] phrase_at(hay, needle, i)
}

/// Whether `needle` stands in `hay` starting at `i`, character by character.
fn matches_at(hay: &str, needle: &str, i: usize) -> (found: bool)
    requires
        i + needle@.len() <= hay@.len() <= usize::MAX,
    ensures
        found == phrase_at(hay@, needle@, i as int),
{
    let n = needle.unicode_len();
    let mut j: usize = 0;
    while j < n
        invariant
            n == needle@.len(),
            i + n <= hay@.len() <= usize::MAX,
            j <= n,
            forall|k: int| 0 <= k < j ==> hay@[i + k] == needle@[k],
        decreases n - j,
    {
        if hay.get_char(i + j) != needle.get_char(j) {
            assert(hay@.subrange(i as int, i + n)[j as int] != needle@[j as int]);
            return false;
        }
        j = j + 1;
    }
    assert(hay@.subrange(i as int, i + n) =~= needle@);
    true
}

/// Whether `needle` stands anywhere in `hay`, as `str::contains` with a text pattern.
pub fn contains_text(hay: &str, needle: &str) -> (found: bool)
    ensures
        found == has_phrase(hay@, needle@),
{
    let h = hay.unicode_len();
    let n = needle.unicode_len();
    if n > h {
        return false;
    }
    let last = h - n;
    let mut i: usize = 0;
    loop
        invariant
            h == hay@.len(),
            n == needle@.len(),
            last == h - n,
            i <= last,
            forall|k: int| 0 <= k < i ==> !#[trigger] phrase_at(hay@, needle@, k),
        decreases last - i,
    {
        if matches_at(hay, needle, i) {
            return true;
        }
        if i == last {
            assert forall|k: int| !#[trigger] phrase_at(hay@, needle@, k) by {
                if 0 <= k && k < i {
                }
            }
            return false;
        }
        i = i + 1;
    }
}

} // verus!
