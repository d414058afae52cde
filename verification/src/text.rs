//! Text as sequences of characters: comparing, trimming, splitting, and the
//! decimal and hexadecimal numerals that identifiers are made of.

use vstd::prelude::*;

verus! {

/// `String::push`: the character is appended to the end of the string.
pub assume_specification[ String::push ](s: &mut String, c: char)
    ensures
        final(s)@ == old(s)@.push(c),
;

/// The characters of `s`, in order.
pub fn chars_of(s: &str) -> (r: Vec<char>)
    ensures
        r@ == s@,
{
    let mut out: Vec<char> = Vec::new();
    for c in it: s.chars()
        invariant
            out@.len() == it.index(),
            out@ =~= it.seq().take(it.index()),
            it.seq() == s@,
    {
        out.push(c);
    }
    out
}

/// Whether two texts hold the same characters.
pub fn same_text(a: &str, b: &str) -> (r: bool)
    ensures
        r == (a@ == b@),
{
    let x = chars_of(a);
    let y = chars_of(b);
    if x.len() != y.len() {
        return false;
    }
    for i in 0..x.len()
        invariant
            x@ == a@,
            y@ == b@,
            x.len() == y.len(),
            forall|j: int| 0 <= j < i ==> x@[j] == y@[j],
    {
        if x[i] != y[i] {
            assert(x@[i as int] != y@[i as int]);
            return false;
        }
    }
    assert(a@ =~= b@);
    true
}

/// The code point of a character.
pub open spec fn code(c: char) -> int {
    c as int
}

/// The characters with the Unicode property `White_Space`.
pub open spec fn white_space(c: char) -> bool {
    ||| 0x09 <= code(c) <= 0x0d
    ||| code(c) == 0x20
    ||| code(c) == 0x85
    ||| code(c) == 0xa0
    ||| code(c) == 0x1680
    ||| 0x2000 <= code(c) <= 0x200a
    ||| code(c) == 0x2028
    ||| code(c) == 0x2029
    ||| code(c) == 0x202f
    ||| code(c) == 0x205f
    ||| code(c) == 0x3000
}

/// Whether `c` is white space.
pub fn is_white_space(c: char) -> (r: bool)
    ensures
        r == white_space(c),
{
    let n: u32 = c as u32;
    (0x09 <= n && n <= 0x0d) || n == 0x20 || n == 0x85 || n == 0xa0 || n == 0x1680 || (0x2000 <= n
        && n <= 0x200a) || n == 0x2028 || n == 0x2029 || n == 0x202f || n == 0x205f || n == 0x3000
}

/// `s` without the white space at its start.
pub open spec fn trim_start(s: Seq<char>) -> Seq<char>
    decreases s.len(),
{
    if s.len() > 0 && white_space(s[0]) {
        trim_start(s.drop_first())
    } else {
        s
    }
}

/// `s` without the white space at its end.
pub open spec fn trim_end(s: Seq<char>) -> Seq<char>
    decreases s.len(),
{
    if s.len() > 0 && white_space(s.last()) {
        trim_end(s.drop_last())
    } else {
        s
    }
}

/// `s` without the white space around it.
pub open spec fn trimmed(s: Seq<char>) -> Seq<char> {
    trim_end(trim_start(s))
}

/// The text without the white space around it.
pub fn trim(s: &str) -> (r: String)
    ensures
        r@ == trimmed(s@),
{
    let chars = chars_of(s);
    let mut from: usize = 0;
    assert(s@.skip(0) =~= s@);
    while from < chars.len() && is_white_space(chars[from])
        invariant
            from <= chars.len(),
            chars@ == s@,
            trim_start(s@) == trim_start(s@.skip(from as int)),
        decreases chars.len() - from,
    {
        assert(s@.skip(from as int).drop_first() =~= s@.skip(from + 1));
        from = from + 1;
    }
    let ghost start = s@.skip(from as int);
    let mut to: usize = chars.len();
    assert(start.take(to - from) =~= start);
    while to > from && is_white_space(chars[to - 1])
        invariant
            from <= to <= chars.len(),
            chars@ == s@,
            start == s@.skip(from as int),
            trim_end(start) == trim_end(start.take(to - from)),
        decreases to,
    {
        assert(start.take(to - from).last() == chars@[to - 1]);
        assert(start.take(to - from).drop_last() =~= start.take(to - 1 - from));
        to = to - 1;
    }
    let mut out = String::new();
    let mut i: usize = from;
    while i < to
        invariant
            from <= i <= to <= chars.len(),
            chars@ == s@,
            out@ =~= s@.subrange(from as int, i as int),
        decreases to - i,
    {
        out.push(chars[i]);
        i = i + 1;
    }
    assert(out@ =~= start.take(to - from));
    out
}

/// Whether `s` begins with `prefix`.
pub open spec fn begins_with(s: Seq<char>, prefix: Seq<char>) -> bool {
    prefix.len() <= s.len() && s.take(prefix.len() as int) == prefix
}

/// The text behind `prefix`, where `s` begins with it.
pub fn strip_prefix(s: &str, prefix: &str) -> (r: Option<String>)
    ensures
        r is Some <==> begins_with(s@, prefix@),
        r matches Some(rest) ==> rest@ == s@.skip(prefix@.len() as int),
{
    let chars = chars_of(s);
    let head = chars_of(prefix);
    if head.len() > chars.len() {
        return None;
    }
    for i in 0..head.len()
        invariant
            chars@ == s@,
            head@ == prefix@,
            head.len() <= chars.len(),
            forall|j: int| 0 <= j < i ==> chars@[j] == head@[j],
    {
        if chars[i] != head[i] {
            assert(s@.take(prefix@.len() as int)[i as int] != prefix@[i as int]);
            return None;
        }
    }
    assert(s@.take(prefix@.len() as int) =~= prefix@);
    let rest = tail_of(&chars, head.len());
    Some(rest)
}

/// The text of the characters from position `from` on.
pub fn tail_of(chars: &Vec<char>, from: usize) -> (r: String)
    requires
        from <= chars@.len(),
    ensures
        r@ == chars@.skip(from as int),
{
    let mut out = String::new();
    let mut i: usize = from;
    while i < chars.len()
        invariant
            from <= i <= chars.len(),
            out@ =~= chars@.subrange(from as int, i as int),
        decreases chars.len() - i,
    {
        out.push(chars[i]);
        i = i + 1;
    }
    assert(out@ =~= chars@.skip(from as int));
    out
}

/// The digit character of a value below ten.
pub open spec fn digit_char(d: nat) -> char {
    (48 + d) as char
}

/// Whether `c` is one of the ten ASCII digits.
pub open spec fn is_digit(c: char) -> bool {
    48 <= code(c) <= 57
}

/// The decimal numeral of `n`, without leading zeros.
pub open spec fn decimal(n: nat) -> Seq<char>
    decreases n,
{
    if n < 10 {
        seq![digit_char(n)]
    } else {
        decimal(n / 10).push(digit_char(n % 10))
    }
}

/// The number that a string of digits denotes.
pub open spec fn digits_value(s: Seq<char>) -> nat
    decreases s.len(),
{
    if s.len() == 0 {
        0
    } else {
        digits_value(s.drop_last()) * 10 + (code(s.last()) - 48) as nat
    }
}

/// Whether every character of `s` is a digit.
pub open spec fn all_digits(s: Seq<char>) -> bool {
    forall|i: int| 0 <= i < s.len() ==> is_digit(#[trigger] s[i])
}

/// `s` without one leading plus sign.
pub open spec fn without_plus(s: Seq<char>) -> Seq<char> {
    if s.len() > 0 && s[0] == '+' {
        s.drop_first()
    } else {
        s
    }
}

/// The number at most `max` that `s` denotes: one or more digits, with or
/// without a plus sign before them.
pub open spec fn parsed(s: Seq<char>, max: u64) -> Option<u64> {
    let digits = without_plus(s);
    if digits.len() > 0 && all_digits(digits) && digits_value(digits) <= max {
        Some(digits_value(digits) as u64)
    } else {
        None
    }
}

proof fn lemma_digits_value_grows(s: Seq<char>, k: int)
    requires
        all_digits(s),
        0 <= k <= s.len(),
    ensures
        digits_value(s.take(k)) <= digits_value(s),
    decreases s.len() - k,
{
    if k == s.len() {
        assert(s.take(k) =~= s);
    } else {
        assert(s.take(k + 1).drop_last() =~= s.take(k));
        assert(is_digit(s[k]));
        lemma_digits_value_grows(s, k + 1);
    }
}

/// The value of an ASCII digit.
fn digit_value(c: char) -> (r: Option<u8>)
    ensures
        r is Some <==> is_digit(c),
        r matches Some(d) ==> d == code(c) - 48,
{
    let n: u32 = c as u32;
    if 48 <= n && n <= 57 {
        Some((n - 48) as u8)
    } else {
        None
    }
}

/// Reads a decimal number that is at most `max`.
pub fn parse_decimal(s: &str, max: u64) -> (r: Option<u64>)
    ensures
        r == parsed(s@, max),
{
    let chars = chars_of(s);
    let mut from: usize = 0;
    if chars.len() > 0 && chars[0] == '+' {
        from = 1;
    }
    let ghost digits = without_plus(s@);
    assert(digits =~= s@.skip(from as int));
    if from == chars.len() {
        return None;
    }
    let mut value: u64 = 0;
    let mut i: usize = from;
    while i < chars.len()
        invariant
            from <= i <= chars.len(),
            chars@ == s@,
            digits == without_plus(s@),
            digits == s@.skip(from as int),
            all_digits(digits.take(i - from)),
            value == digits_value(digits.take(i - from)),
            value <= max,
        decreases chars.len() - i,
    {
        let c: char = chars[i];
        assert(c == digits[i - from]);
        let digit: u8 = match digit_value(c) {
            Some(d) => d,
            None => {
                assert(!is_digit(digits[i - from]));
                return None;
            },
        };
        let next: u128 = value as u128 * 10 + digit as u128;
        proof {
            assert(digits.take(i + 1 - from).drop_last() =~= digits.take(i - from));
            assert(digits.take(i + 1 - from).last() == c);
            assert forall|j: int| 0 <= j < i + 1 - from implies is_digit(
                #[trigger] digits.take(i + 1 - from)[j],
            ) by {
                if j < i - from {
                    assert(digits.take(i - from)[j] == digits[j]);
                }
            }
            assert(digits.take(i + 1 - from).len() == i + 1 - from);
            assert(digits_value(digits.take(i + 1 - from)) == digits_value(
                digits.take(i - from),
            ) * 10 + (code(c) - 48) as nat);
            assert(next == digits_value(digits.take(i + 1 - from)));
        }
        if next > max as u128 {
            proof {
                if all_digits(digits) {
                    lemma_digits_value_grows(digits, i + 1 - from);
                }
            }
            return None;
        }
        value = next as u64;
        i = i + 1;
    }
    assert(digits.take(i - from) =~= digits);
    Some(value)
}

/// The digit character of a value below ten.
fn digit(d: u8) -> (c: char)
    requires
        d < 10,
    ensures
        c == digit_char(d as nat),
{
    (48 + d) as char
}

/// The decimal numeral of `n`.
pub fn decimal_text(n: u64) -> (r: String)
    ensures
        r@ == decimal(n as nat),
    decreases n,
{
    if n < 10 {
        let mut out = String::new();
        out.push(digit(n as u8));
        assert(out@ =~= seq![digit_char(n as nat)]);
        out
    } else {
        let mut out = decimal_text(n / 10);
        out.push(digit((n % 10) as u8));
        out
    }
}

/// A numeral denotes the number that it was written for.
pub proof fn decimal_denotes_its_number(n: nat)
    ensures
        decimal(n).len() > 0,
        all_digits(decimal(n)),
        digits_value(decimal(n)) == n,
    decreases n,
{
    if n < 10 {
        let s = seq![digit_char(n)];
        assert(s.drop_last() =~= Seq::<char>::empty());
        assert(digits_value(Seq::<char>::empty()) == 0);
        assert(digits_value(s) == n);
    } else {
        decimal_denotes_its_number(n / 10);
        assert(decimal(n).drop_last() =~= decimal(n / 10));
    }
}

/// Different numbers have different numerals.
pub proof fn decimal_is_injective(a: nat, b: nat)
    requires
        decimal(a) == decimal(b),
    ensures
        a == b,
{
    decimal_denotes_its_number(a);
    decimal_denotes_its_number(b);
}

/// The lower-case hexadecimal digit of a value below sixteen.
pub open spec fn hex_digit(d: nat) -> char {
    if d < 10 {
        (48 + d) as char
    } else {
        (87 + d) as char
    }
}

/// Two hexadecimal digits for every byte, the high half first.
pub open spec fn hex(bytes: Seq<u8>) -> Seq<char> {
    Seq::new(
        2 * bytes.len(),
        |i: int|
            if i % 2 == 0 {
                hex_digit((bytes[i / 2] / 16) as nat)
            } else {
                hex_digit((bytes[i / 2] % 16) as nat)
            },
    )
}

/// Where the two digits of a byte stand.
pub proof fn hex_digits_of(bytes: Seq<u8>, i: int)
    requires
        0 <= i < bytes.len(),
    ensures
        hex(bytes)[2 * i] == hex_digit((bytes[i] / 16) as nat),
        hex(bytes)[2 * i + 1] == hex_digit((bytes[i] % 16) as nat),
{
    let high = 2 * i;
    let low = 2 * i + 1;
    assert(high / 2 == i && high % 2 == 0);
    assert(low / 2 == i && low % 2 == 1);
}

/// Different byte strings have different hexadecimal texts.
pub proof fn hex_is_injective(a: Seq<u8>, b: Seq<u8>)
    requires
        hex(a) == hex(b),
    ensures
        a == b,
{
    assert(hex(a).len() == 2 * a.len());
    assert(hex(b).len() == 2 * b.len());
    assert forall|i: int| 0 <= i < a.len() implies a[i] == b[i] by {
        hex_digits_of(a, i);
        hex_digits_of(b, i);
    }
    assert(a =~= b);
}

/// The four hexadecimal digits of a 16-bit number, the highest first.
pub open spec fn hex_word(n: u16) -> Seq<char> {
    hex(seq![(n / 256) as u8, (n % 256) as u8])
}

fn hex_char(d: u8) -> (c: char)
    requires
        d < 16,
    ensures
        c == hex_digit(d as nat),
{
    if d < 10 {
        (48 + d) as char
    } else {
        (87 + d) as char
    }
}

/// The four hexadecimal digits of `n`.
pub fn hex_word_text(n: u16) -> (r: String)
    ensures
        r@ == hex_word(n),
{
    let high: u8 = (n / 256) as u8;
    let low: u8 = (n % 256) as u8;
    let mut out = String::new();
    out.push(hex_char(high / 16));
    out.push(hex_char(high % 16));
    out.push(hex_char(low / 16));
    out.push(hex_char(low % 16));
    assert(out@ =~= hex_word(n));
    out
}

/// The texts one after the other, with `separator` between each two.
pub open spec fn joined(parts: Seq<Seq<char>>, separator: Seq<char>) -> Seq<char>
    decreases parts.len(),
{
    if parts.len() == 0 {
        Seq::empty()
    } else if parts.len() == 1 {
        parts[0]
    } else {
        joined(parts.drop_last(), separator) + separator + parts.last()
    }
}

/// The texts one after the other, with `separator` between each two.
pub fn join(parts: &Vec<String>, separator: &str) -> (r: String)
    ensures
        r@ == joined(crate::model::views(parts@), separator@),
{
    let mut out = String::new();
    assert(out@ =~= joined(crate::model::views(parts@).take(0), separator@));
    for i in 0..parts.len()
        invariant
            out@ == joined(crate::model::views(parts@).take(i as int), separator@),
    {
        proof {
            let all = crate::model::views(parts@);
            assert(all.take(i + 1).drop_last() =~= all.take(i as int));
            assert(all.take(i + 1).last() == parts@[i as int]@);
            assert(all.take(i as int).len() == i);
        }
        if i > 0 {
            out.append(separator);
        } else {
            assert(out@ =~= Seq::<char>::empty());
        }
        out.append(parts[i].as_str());
        assert(out@ =~= joined(crate::model::views(parts@).take(i + 1), separator@));
    }
    assert(crate::model::views(parts@).take(parts@.len() as int) =~= crate::model::views(parts@));
    out
}

/// How many bytes a character takes in UTF-8.
pub open spec fn utf8_width(c: char) -> nat {
    if code(c) < 0x80 {
        1
    } else if code(c) < 0x800 {
        2
    } else if code(c) < 0x1_0000 {
        3
    } else {
        4
    }
}

/// The front of a text that takes exactly `n` bytes in UTF-8, where there is
/// one.
pub open spec fn byte_prefix(s: Seq<char>, n: nat) -> Option<Seq<char>>
    decreases s.len(),
{
    if n == 0 {
        Some(Seq::empty())
    } else if s.len() == 0 || utf8_width(s[0]) > n {
        None
    } else {
        match byte_prefix(s.drop_first(), (n - utf8_width(s[0])) as nat) {
            Some(rest) => Some(seq![s[0]] + rest),
            None => None,
        }
    }
}

fn width_of(c: char) -> (n: usize)
    ensures
        n == utf8_width(c),
        1 <= n <= 4,
{
    let point: u32 = c as u32;
    if point < 0x80 {
        1
    } else if point < 0x800 {
        2
    } else if point < 0x1_0000 {
        3
    } else {
        4
    }
}

/// The front of a text that takes exactly `n` bytes in UTF-8.
pub fn front_bytes(s: &str, n: usize) -> (r: Option<String>)
    ensures
        crate::model::seen(r) == byte_prefix(s@, n as nat),
{
    let chars = chars_of(s);
    let mut out = String::new();
    let mut left: usize = n;
    let mut i: usize = 0;
    assert(chars@.skip(0) =~= chars@);
    proof {
        if let Some(rest) = byte_prefix(chars@, n as nat) {
            assert(out@ + rest =~= rest);
        }
    }
    while left > 0
        invariant
            i <= chars@.len(),
            chars@ == s@,
            byte_prefix(chars@, n as nat) == (match byte_prefix(chars@.skip(i as int), left as nat) {
                Some(rest) => Some(out@ + rest),
                None => None,
            }),
        decreases left,
    {
        let ghost tail = chars@.skip(i as int);
        if i == chars.len() {
            return None;
        }
        let c: char = chars[i];
        assert(tail[0] == c);
        let width = width_of(c);
        if width > left {
            return None;
        }
        let ghost before = out@;
        out.push(c);
        left = left - width;
        i = i + 1;
        proof {
            assert(tail.drop_first() =~= chars@.skip(i as int));
            match byte_prefix(chars@.skip(i as int), left as nat) {
                Some(rest) => {
                    assert(before + (seq![c] + rest) =~= out@ + rest);
                },
                None => {},
            }
        }
    }
    assert(out@ + Seq::<char>::empty() =~= out@);
    Some(out)
}

/// Whether a text is `s`.
pub open spec fn is_text(s: Seq<char>) -> spec_fn(Seq<char>) -> bool {
    |text: Seq<char>| text == s
}

/// The first position of `s`.
pub open spec fn first_position(texts: Seq<Seq<char>>, s: Seq<char>) -> Option<int> {
    crate::model::first_where(texts, is_text(s))
}

/// The first position is where a text stands and has not stood before.
pub proof fn first_position_is_first(texts: Seq<Seq<char>>, s: Seq<char>, i: int)
    requires
        0 <= i < texts.len(),
        texts[i] == s,
        forall|j: int| 0 <= j < i ==> #[trigger] texts[j] != s,
    ensures
        first_position(texts, s) == Some(i),
{
    crate::model::first_is_unique(texts, is_text(s), i);
}

/// A text has a position where it stands somewhere.
pub proof fn first_position_exists(texts: Seq<Seq<char>>, s: Seq<char>)
    ensures
        first_position(texts, s) is Some <==> texts.contains(s),
        first_position(texts, s) matches Some(i) ==> {
            &&& 0 <= i < texts.len()
            &&& texts[i] == s
            &&& forall|j: int| 0 <= j < i ==> #[trigger] texts[j] != s
        },
{
    crate::model::first_exists(texts, is_text(s));
    if let Some(i) = first_position(texts, s) {
        assert forall|j: int| 0 <= j < i implies #[trigger] texts[j] != s by {
            assert(!is_text(s)(texts[j]));
        }
    }
    if texts.contains(s) {
        let i = choose|i: int| 0 <= i < texts.len() && texts[i] == s;
        assert(is_text(s)(texts[i]));
    }
}

/// White space is what Unicode calls so: the control characters from tab to
/// carriage return, the space, the next line, and the spaces and separators
/// beyond ASCII.
pub proof fn white_space_is_as_in_unicode(c: char)
    ensures
        white_space(c) <==> {
            let n = c as int;
            ||| n == 9 || n == 10 || n == 11 || n == 12 || n == 13 || n == 32
            ||| n == 133 || n == 160 || n == 5760
            ||| 8192 <= n && n <= 8202
            ||| n == 8232 || n == 8233 || n == 8239 || n == 8287 || n == 12288
        },
{
}

/// Trimming takes away the white space in front and behind, and nothing else.
pub proof fn trimming_takes_away_what_is_around(front: Seq<char>, s: Seq<char>, back: Seq<char>)
    requires
        forall|i: int| 0 <= i < front.len() ==> white_space(#[trigger] front[i]),
        forall|i: int| 0 <= i < back.len() ==> white_space(#[trigger] back[i]),
        s.len() > 0 ==> !white_space(s[0]) && !white_space(s.last()),
    ensures
        trimmed(front + s + back) == s,
{
    lemma_trim_start(front, s + back);
    assert(front + s + back =~= front + (s + back));
    if s.len() > 0 {
        assert((s + back)[0] == s[0]);
        lemma_trim_end(s, back);
    } else {
        assert(s =~= Seq::<char>::empty());
        lemma_trim_start(front + back, s);
        assert((front + back) + s =~= front + s + back);
        assert(trim_start(front + s + back) =~= Seq::<char>::empty());
    }
}

proof fn lemma_trim_start(front: Seq<char>, s: Seq<char>)
    requires
        forall|i: int| 0 <= i < front.len() ==> white_space(#[trigger] front[i]),
    ensures
        s.len() > 0 && !white_space(s[0]) ==> trim_start(front + s) == s,
        s.len() == 0 ==> trim_start(front + s) == Seq::<char>::empty(),
    decreases front.len(),
{
    if front.len() == 0 {
        assert(front + s =~= s);
        if s.len() == 0 {
            assert(s =~= Seq::<char>::empty());
        }
    } else {
        assert((front + s)[0] == front[0]);
        assert((front + s).drop_first() =~= front.drop_first() + s);
        lemma_trim_start(front.drop_first(), s);
    }
}

proof fn lemma_trim_end(s: Seq<char>, back: Seq<char>)
    requires
        forall|i: int| 0 <= i < back.len() ==> white_space(#[trigger] back[i]),
        s.len() > 0,
        !white_space(s.last()),
    ensures
        trim_end(s + back) == s,
    decreases back.len(),
{
    if back.len() == 0 {
        assert(s + back =~= s);
    } else {
        assert((s + back).last() == back.last());
        assert((s + back).drop_last() =~= s + back.drop_last());
        lemma_trim_end(s, back.drop_last());
    }
}

/// A numeral of digits is read one digit after the other: each counts once, and
/// what stands before it ten times as much. A plus sign in front does not count.
/// What is beyond the limit is not read.
pub proof fn numerals_are_read_digit_by_digit(s: Seq<char>, d: nat, max: u64)
    requires
        d < 10,
    ensures
        parsed(seq![(48 + d) as char], max) == (if d <= max {
            Some(d as u64)
        } else {
            None
        }),
        s.len() > 0 && s[0] != '+' ==> match parsed(s, u64::MAX) {
            Some(n) => parsed(s.push((48 + d) as char), max) == (if 10 * n + d <= max {
                Some((10 * n + d) as u64)
            } else {
                None::<u64>
            }),
            None => true,
        },
        s.len() > 0 && s[0] != '+' ==> parsed(seq!['+'] + s, max) == parsed(s, max),
        parsed(s, max) matches Some(n) ==> n <= max,
{
    let c = (48 + d) as char;
    assert(code(c) == 48 + d);
    let one = seq![c];
    assert(one.drop_last() =~= Seq::<char>::empty());
    assert(digits_value(Seq::<char>::empty()) == 0);
    assert(digits_value(one) == d);
    assert(without_plus(one) == one);
    assert(all_digits(one));
    if s.len() > 0 && s[0] != '+' {
        let t = s.push(c);
        assert(t[0] == s[0]);
        assert(t.drop_last() =~= s);
        if all_digits(s) {
            assert forall|i: int| 0 <= i < t.len() implies is_digit(#[trigger] t[i]) by {
                if i < s.len() {
                    assert(t[i] == s[i]);
                }
            }
        }
        let u = seq!['+'] + s;
        assert(u.drop_first() =~= s);
    }
}

/// Only digits make a numeral: a text that holds anything else, but for a plus
/// sign in front of it, is not read, nor is one without digits.
pub proof fn only_digits_make_a_numeral(s: Seq<char>, i: int, max: u64)
    requires
        0 <= i < s.len(),
        !(48 <= s[i] as int && s[i] as int <= 57),
        s[i] != '+' || i > 0,
    ensures
        parsed(s, max) is None,
        parsed(Seq::empty(), max) is None,
        parsed(seq!['+'], max) is None,
{
    let digits = without_plus(s);
    if s[0] == '+' {
        assert(i > 0);
        assert(digits[i - 1] == s[i]);
        assert(!is_digit(digits[i - 1]));
    } else {
        assert(!is_digit(digits[i]));
    }
    assert(seq!['+'].drop_first() =~= Seq::<char>::empty());
}

/// What is written as a numeral is read back.
pub proof fn written_numbers_are_read_back(n: nat, max: u64)
    requires
        n <= u64::MAX,
    ensures
        n <= max ==> parsed(decimal(n), max) == Some(n as u64),
        n > max ==> parsed(decimal(n), max) is None,
        parsed(seq!['+'] + decimal(n), max) == parsed(decimal(n), max),
{
    decimal_denotes_its_number(n);
    let s = decimal(n);
    assert(is_digit(s[0]));
    assert((seq!['+'] + s).drop_first() =~= s);
}

/// A numeral is written digit by digit: the last one is the remainder by ten,
/// and those before it are the numeral of the quotient.
pub proof fn numbers_are_written_digit_by_digit(n: nat, d: nat)
    requires
        d < 10,
    ensures
        decimal(d) == seq![(48 + d) as char],
        n > 0 ==> decimal(10 * n + d) == decimal(n).push((48 + d) as char),
{
    assert((10 * n + d) / 10 == n && (10 * n + d) % 10 == d);
}

/// The sixteen digits are `0` to `9` and `a` to `f`.
pub proof fn hexadecimal_digits_are_lower_case(d: nat)
    requires
        d < 16,
    ensures
        d < 10 ==> hex_digit(d) as int == '0' as int + d,
        d >= 10 ==> hex_digit(d) as int == 'a' as int + d - 10,
{
}

/// A word has four hexadecimal digits, the highest first.
pub proof fn words_have_four_digits(n: u16)
    ensures
        hex_word(n).len() == 4,
        hex_word(n)[0] == hex_digit((n / 4096) as nat),
        hex_word(n)[1] == hex_digit(((n / 256) % 16) as nat),
        hex_word(n)[2] == hex_digit(((n / 16) % 16) as nat),
        hex_word(n)[3] == hex_digit((n % 16) as nat),
{
    let high = (n / 256) as u8;
    let low = (n % 256) as u8;
    let bytes = seq![high, low];
    assert(high == n / 256 && low == n % 256);
    assert(bytes[0] == high && bytes[1] == low);
    hex_digits_of(bytes, 0);
    hex_digits_of(bytes, 1);
    assert((high / 16) as nat == (n / 4096) as nat);
    assert((high % 16) as nat == ((n / 256) % 16) as nat);
    assert((low / 16) as nat == ((n / 16) % 16) as nat);
    assert((low % 16) as nat == (n % 16) as nat);
}

/// Joined texts stand one after the other with one separator between each two.
pub proof fn joining_puts_a_separator_between(
    a: Seq<Seq<char>>,
    b: Seq<Seq<char>>,
    separator: Seq<char>,
)
    ensures
        joined(Seq::empty(), separator) == Seq::<char>::empty(),
        a.len() == 1 ==> joined(a, separator) == a[0],
        a.len() > 0 && b.len() > 0 ==> joined(a + b, separator) == joined(a, separator) + separator
            + joined(b, separator),
    decreases b.len(),
{
    if a.len() > 0 && b.len() > 0 {
        let front = b.drop_last();
        assert((a + b).last() == b.last());
        assert((a + b).drop_last() =~= a + front);
        if front.len() > 0 {
            joining_puts_a_separator_between(a, front, separator);
            assert(joined(a + b, separator) =~= joined(a, separator) + separator + joined(
                b,
                separator,
            ));
        } else {
            assert(a + front =~= a);
        }
    }
}

/// How many bytes a text takes in UTF-8.
pub open spec fn utf8_length(s: Seq<char>) -> nat
    decreases s.len(),
{
    if s.len() == 0 {
        0
    } else {
        utf8_width(s[0]) + utf8_length(s.drop_first())
    }
}

/// A character takes one byte in ASCII, two below U+0800, three below U+10000,
/// and four beyond.
pub proof fn characters_take_one_to_four_bytes(c: char)
    ensures
        (c as int) < 0x80 <==> utf8_width(c) == 1,
        0x80 <= (c as int) && (c as int) < 0x800 <==> utf8_width(c) == 2,
        0x800 <= (c as int) && (c as int) < 0x10000 <==> utf8_width(c) == 3,
        0x10000 <= (c as int) <==> utf8_width(c) == 4,
{
}

/// The front of a text with `n` bytes is the beginning of it that takes so many;
/// where a character would be cut, or the text is shorter, there is none.
pub proof fn fronts_end_between_characters(s: Seq<char>, n: nat, k: int)
    requires
        0 <= k <= s.len(),
    ensures
        utf8_length(s.take(k)) == n ==> byte_prefix(s, n) == Some(s.take(k)),
        byte_prefix(s, n) matches Some(front) ==> {
            &&& front.len() <= s.len()
            &&& front == s.take(front.len() as int)
            &&& utf8_length(front) == n
        },
    decreases s.len(),
{
    if k > 0 {
        assert(s.take(k).drop_first() =~= s.drop_first().take(k - 1));
        assert(s.take(k)[0] == s[0]);
        fronts_end_between_characters(
            s.drop_first(),
            (n - utf8_width(s[0])) as nat,
            k - 1,
        );
        assert(seq![s[0]] + s.drop_first().take(k - 1) =~= s.take(k));
    } else {
        assert(s.take(0) =~= Seq::<char>::empty());
        if n > 0 && s.len() > 0 && utf8_width(s[0]) <= n {
            fronts_end_between_characters(
                s.drop_first(),
                (n - utf8_width(s[0])) as nat,
                0,
            );
        }
    }
    if let Some(front) = byte_prefix(s, n) {
        if n == 0 {
            assert(front =~= s.take(0));
        } else {
            let rest = byte_prefix(s.drop_first(), (n - utf8_width(s[0])) as nat)->Some_0;
            assert(front =~= seq![s[0]] + rest);
            assert(front.drop_first() =~= rest);
            assert(front =~= s.take(front.len() as int));
        }
    }
}

} // verus!
