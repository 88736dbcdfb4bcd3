//! Text helpers whose results are stated over the characters of the text.

use vstd::prelude::*;
use vstd::utf8::*;

verus! {

/// The characters of a text, in order.
pub fn chars_of(text: &str) -> (chars: Vec<char>)
    ensures
        chars@ == text@,
{
    let mut chars: Vec<char> = Vec::new();
    for c in walk: text.chars()
        invariant
            walk.seq() == text@,
            chars@ == text@.take(walk.index()),
    {
        chars.push(c);
    }
    chars
}

/// Whether two texts have the same characters.
pub fn same(a: &str, b: &str) -> (r: bool)
    ensures
        r == (a@ == b@),
{
    let left = a.as_bytes();
    let right = b.as_bytes();
    proof {
        encode_utf8_decode_utf8(a@);
        encode_utf8_decode_utf8(b@);
    }
    if left.len() != right.len() {
        return false;
    }
    let mut i: usize = 0;
    while i < left.len()
        invariant
            i <= left@.len(),
            left@.len() == right@.len(),
            left@ == encode_utf8(a@),
            right@ == encode_utf8(b@),
            left@.take(i as int) == right@.take(i as int),
        decreases left@.len() - i,
    {
        if left[i] != right[i] {
            return false;
        }
        assert(left@.take(i + 1) == left@.take(i as int).push(left@[i as int]));
        assert(right@.take(i + 1) == right@.take(i as int).push(right@[i as int]));
        i = i + 1;
    }
    assert(left@.take(i as int) == left@);
    assert(right@.take(i as int) == right@);
    true
}

/// Byte strings in lexicographic order: `a` comes strictly before `b`.
pub open spec fn bytes_before(a: Seq<u8>, b: Seq<u8>) -> bool
    decreases a.len(),
{
    if b.len() == 0 {
        false
    } else if a.len() == 0 {
        true
    } else if a[0] != b[0] {
        a[0] < b[0]
    } else {
        bytes_before(a.drop_first(), b.drop_first())
    }
}

/// The order of texts: the lexicographic order of their UTF-8 bytes.
pub open spec fn text_before(a: Seq<char>, b: Seq<char>) -> bool {
    bytes_before(encode_utf8(a), encode_utf8(b))
}

proof fn lemma_bytes_before_order(a: Seq<u8>, b: Seq<u8>, c: Seq<u8>)
    ensures
        !bytes_before(a, a),
        a == b || bytes_before(a, b) || bytes_before(b, a),
        bytes_before(a, b) && bytes_before(b, c) ==> bytes_before(a, c),
    decreases a.len() + b.len() + c.len(),
{
    if a.len() > 0 {
        let rest_b = if b.len() > 0 { b.drop_first() } else { b };
        let rest_c = if c.len() > 0 { c.drop_first() } else { c };
        lemma_bytes_before_order(a.drop_first(), rest_b, rest_c);
        if b.len() > 0 && a[0] == b[0] && a.drop_first() == b.drop_first() {
            assert(a == seq![a[0]] + a.drop_first());
            assert(b == seq![b[0]] + b.drop_first());
        }
    } else if b.len() == 0 {
        assert(a == b);
    }
}

/// The order of texts is a strict total order.
pub proof fn lemma_text_order(a: Seq<char>, b: Seq<char>, c: Seq<char>)
    ensures
        !text_before(a, a),
        a == b || text_before(a, b) || text_before(b, a),
        text_before(a, b) && text_before(b, c) ==> text_before(a, c),
{
    lemma_bytes_before_order(encode_utf8(a), encode_utf8(b), encode_utf8(c));
    encode_utf8_decode_utf8(a);
    encode_utf8_decode_utf8(b);
}

/// Whether `a` comes strictly before `b` in the order of texts.
pub fn before(a: &str, b: &str) -> (r: bool)
    ensures
        r == text_before(a@, b@),
{
    let left = a.as_bytes();
    let right = b.as_bytes();
    let mut i: usize = 0;
    assert(left@.skip(0) == left@);
    assert(right@.skip(0) == right@);
    while i < left.len() && i < right.len()
        invariant
            i <= left@.len(),
            i <= right@.len(),
            left@ == encode_utf8(a@),
            right@ == encode_utf8(b@),
            bytes_before(left@, right@) == bytes_before(
                left@.skip(i as int),
                right@.skip(i as int),
            ),
        decreases left@.len() - i,
    {
        if left[i] != right[i] {
            return left[i] < right[i];
        }
        assert(left@.skip(i as int).drop_first() == left@.skip(i + 1));
        assert(right@.skip(i as int).drop_first() == right@.skip(i + 1));
        i = i + 1;
    }
    i < right.len()
}

/// Characters with the Unicode property `White_Space`.
pub open spec fn is_white_space(c: char) -> bool {
    let code = c as u32;
    ||| 0x09 <= code <= 0x0d
    ||| code == 0x20
    ||| code == 0x85
    ||| code == 0xa0
    ||| code == 0x1680
    ||| 0x2000 <= code <= 0x200a
    ||| code == 0x2028
    ||| code == 0x2029
    ||| code == 0x202f
    ||| code == 0x205f
    ||| code == 0x3000
}

/// A text is blank when it holds white space only.
pub open spec fn blank(text: Seq<char>) -> bool {
    forall|i: int| 0 <= i < text.len() ==> is_white_space(#[trigger] text[i])
}

fn white_space(c: char) -> (r: bool)
    ensures
        r == is_white_space(c),
{
    let code: u32 = c as u32;
    (0x09 <= code && code <= 0x0d) || code == 0x20 || code == 0x85 || code == 0xa0 || code == 0x1680
        || (0x2000 <= code && code <= 0x200a) || code == 0x2028 || code == 0x2029 || code == 0x202f
        || code == 0x205f || code == 0x3000
}

/// Whether a text is blank.
pub fn is_blank(text: &str) -> (r: bool)
    ensures
        r == blank(text@),
{
    let chars = chars_of(text);
    let mut i: usize = 0;
    while i < chars.len()
        invariant
            i <= chars@.len(),
            chars@ == text@,
            forall|j: int| 0 <= j < i ==> is_white_space(#[trigger] chars@[j]),
        decreases chars@.len() - i,
    {
        if !white_space(chars[i]) {
            return false;
        }
        i = i + 1;
    }
    true
}

/// The position of the first `c` in a text, or the text's length.
pub open spec fn first_position(text: Seq<char>, c: char) -> int
    decreases text.len(),
{
    if text.len() == 0 || text[0] == c {
        0
    } else {
        1 + first_position(text.drop_first(), c)
    }
}

/// What `first_position` finds: `c` stands there, and nowhere before.
pub proof fn lemma_first_position(text: Seq<char>, c: char)
    ensures
        0 <= first_position(text, c) <= text.len(),
        first_position(text, c) < text.len() ==> text[first_position(text, c)] == c,
        forall|i: int| 0 <= i < first_position(text, c) ==> #[trigger] text[i] != c,
        first_position(text, c) == text.len() <==> !text.contains(c),
    decreases text.len(),
{
    if text.len() > 0 && text[0] != c {
        let rest = text.drop_first();
        lemma_first_position(rest, c);
        assert forall|i: int| 0 <= i < first_position(text, c) implies #[trigger] text[i] != c by {
            if i > 0 {
                assert(rest[i - 1] == text[i]);
            }
        }
        if rest.contains(c) {
            let i = choose|i: int| 0 <= i < rest.len() && rest[i] == c;
            assert(text[i + 1] == c);
        }
        if text.contains(c) {
            let i = choose|i: int| 0 <= i < text.len() && text[i] == c;
            assert(rest[i - 1] == c);
        }
    }
}

/// The position of the first `c` in a text.
pub fn find_char(text: &str, c: char) -> (r: Option<usize>)
    ensures
        match r {
            Some(at) => at == first_position(text@, c) && at < text@.len(),
            None => first_position(text@, c) == text@.len(),
        },
{
    let chars = chars_of(text);
    let mut i: usize = 0;
    assert(text@.skip(0) == text@);
    while i < chars.len()
        invariant
            i <= chars@.len(),
            chars@ == text@,
            first_position(text@, c) == i + first_position(text@.skip(i as int), c),
        decreases chars@.len() - i,
    {
        if chars[i] == c {
            return Some(i);
        }
        assert(text@.skip(i as int).drop_first() == text@.skip(i + 1));
        i = i + 1;
    }
    None
}

/// `needle` stands somewhere in `text`.
pub open spec fn contains_text(text: Seq<char>, needle: Seq<char>) -> bool {
    exists|at: int|
        0 <= at <= text.len() - needle.len() && #[trigger] text.subrange(at, at + needle.len())
            == needle
}

fn stands_at(text: &Vec<char>, needle: &Vec<char>, at: usize) -> (r: bool)
    requires
        at <= text@.len() - needle@.len(),
    ensures
        r == (text@.subrange(at as int, at + needle@.len()) == needle@),
{
    let total: usize = text.len();
    let mut i: usize = 0;
    while i < needle.len()
        invariant
            i <= needle@.len(),
            total == text@.len(),
            at <= total - needle@.len(),
            forall|j: int| 0 <= j < i ==> text@[at + j] == #[trigger] needle@[j],
        decreases needle@.len() - i,
    {
        if text[at + i] != needle[i] {
            assert(text@.subrange(at as int, at + needle@.len())[i as int] != needle@[i as int]);
            return false;
        }
        i = i + 1;
    }
    assert(text@.subrange(at as int, at + needle@.len()) =~= needle@);
    true
}

/// Whether `needle` stands somewhere in `text`.
pub fn contains(text: &str, needle: &str) -> (r: bool)
    ensures
        r == contains_text(text@, needle@),
{
    let haystack = chars_of(text);
    let wanted = chars_of(needle);
    if wanted.len() > haystack.len() {
        return false;
    }
    let last: usize = haystack.len() - wanted.len();
    let mut at: usize = 0;
    loop
        invariant
            at <= last,
            haystack@ == text@,
            wanted@ == needle@,
            last == text@.len() - needle@.len(),
            forall|k: int|
                0 <= k < at ==> #[trigger] text@.subrange(k, k + needle@.len()) != needle@,
        decreases last - at,
    {
        if stands_at(&haystack, &wanted, at) {
            return true;
        }
        if at == last {
            return false;
        }
        at = at + 1;
    }
}

/// The decimal digit of a value below ten.
pub open spec fn digit(d: int) -> Seq<char> {
    if d == 0 {
        "0"@
    } else if d == 1 {
        "1"@
    } else if d == 2 {
        "2"@
    } else if d == 3 {
        "3"@
    } else if d == 4 {
        "4"@
    } else if d == 5 {
        "5"@
    } else if d == 6 {
        "6"@
    } else if d == 7 {
        "7"@
    } else if d == 8 {
        "8"@
    } else {
        "9"@
    }
}

/// The decimal digits of a natural number, without leading zeros.
pub open spec fn decimal_digits(n: nat) -> Seq<char>
    decreases n,
{
    if n < 10 {
        digit(n as int)
    } else {
        decimal_digits(n / 10) + digit((n % 10) as int)
    }
}

/// The decimal form of an integer.
pub open spec fn decimal(n: int) -> Seq<char> {
    if n < 0 {
        "-"@ + decimal_digits((-n) as nat)
    } else {
        decimal_digits(n as nat)
    }
}

proof fn lemma_digit(d: int)
    requires
        0 <= d < 10,
    ensures
        digit(d).len() == 1,
        digit(d)[0] as int == '0' as int + d,
{
    reveal_strlit("0");
    reveal_strlit("1");
    reveal_strlit("2");
    reveal_strlit("3");
    reveal_strlit("4");
    reveal_strlit("5");
    reveal_strlit("6");
    reveal_strlit("7");
    reveal_strlit("8");
    reveal_strlit("9");
}

proof fn lemma_decimal_digits(n: nat)
    ensures
        decimal_digits(n).len() > 0,
        forall|i: int| 0 <= i < decimal_digits(n).len() ==> '0' <= #[trigger] decimal_digits(n)[i]
            <= '9',
    decreases n,
{
    if n < 10 {
        lemma_digit(n as int);
    } else {
        lemma_decimal_digits(n / 10);
        lemma_digit((n % 10) as int);
    }
}

proof fn lemma_decimal_digits_differ(a: nat, b: nat)
    ensures
        decimal_digits(a) == decimal_digits(b) ==> a == b,
    decreases a,
{
    if decimal_digits(a) == decimal_digits(b) {
        lemma_decimal_digits(a / 10);
        lemma_decimal_digits(b / 10);
        lemma_digit((a % 10) as int);
        lemma_digit((b % 10) as int);
        let left = decimal_digits(a);
        let right = decimal_digits(b);
        assert(left.last() == digit((a % 10) as int)[0]);
        assert(right.last() == digit((b % 10) as int)[0]);
        if a >= 10 && b >= 10 {
            assert(left.drop_last() =~= decimal_digits(a / 10));
            assert(right.drop_last() =~= decimal_digits(b / 10));
            lemma_decimal_digits_differ(a / 10, b / 10);
        }
    }
}

/// Different integers have different decimal forms, which hold nothing but
/// digits and a leading sign.
pub proof fn lemma_decimal(a: int, b: int)
    ensures
        decimal(a) == decimal(b) ==> a == b,
        !decimal(a).contains(':'),
{
    reveal_strlit("-");
    let left = if a < 0 {
        (-a) as nat
    } else {
        a as nat
    };
    let right = if b < 0 {
        (-b) as nat
    } else {
        b as nat
    };
    lemma_decimal_digits(left);
    lemma_decimal_digits(right);
    if decimal(a) == decimal(b) {
        if a < 0 && b < 0 {
            assert(decimal(a).skip(1) =~= decimal_digits(left));
            assert(decimal(b).skip(1) =~= decimal_digits(right));
        } else if a < 0 {
            assert(decimal(a)[0] == '-');
            assert(decimal_digits(right)[0] == '-');
        } else if b < 0 {
            assert(decimal(b)[0] == '-');
            assert(decimal_digits(left)[0] == '-');
        }
        lemma_decimal_digits_differ(left, right);
    }
    if decimal(a).contains(':') {
        let i = choose|i: int| 0 <= i < decimal(a).len() && decimal(a)[i] == ':';
        if a < 0 {
            if i > 0 {
                assert(decimal(a)[i] == decimal_digits(left)[i - 1]);
            }
        } else {
            assert(decimal(a)[i] == decimal_digits(left)[i]);
        }
    }
}

/// Texts that end in a colon and a number agree only where both parts do.
pub proof fn lemma_numbered_differ(a: Seq<char>, m: int, b: Seq<char>, n: int)
    requires
        a + ":"@ + decimal(m) == b + ":"@ + decimal(n),
    ensures
        a == b,
        m == n,
{
    reveal_strlit(":");
    lemma_decimal(m, n);
    lemma_decimal(n, m);
    let left = a + ":"@ + decimal(m);
    let right = b + ":"@ + decimal(n);
    assert(left[a.len() as int] == ':');
    assert(right[b.len() as int] == ':');
    assert(left.len() == a.len() + 1 + decimal(m).len());
    assert(right.len() == b.len() + 1 + decimal(n).len());
    if a.len() < b.len() {
        let at = b.len() - a.len() - 1;
        assert(left[a.len() as int + 1 + at] == decimal(m)[at]);
    } else if b.len() < a.len() {
        let at = a.len() - b.len() - 1;
        assert(right[b.len() as int + 1 + at] == decimal(n)[at]);
    }
    assert(left.take(a.len() as int) =~= a);
    assert(right.take(b.len() as int) =~= b);
    assert(left.skip(a.len() as int + 1) =~= decimal(m));
    assert(right.skip(b.len() as int + 1) =~= decimal(n));
}

fn digit_text(d: u64) -> (r: &'static str)
    requires
        d < 10,
    ensures
        r@ == digit(d as int),
{
    if d == 0 {
        "0"
    } else if d == 1 {
        "1"
    } else if d == 2 {
        "2"
    } else if d == 3 {
        "3"
    } else if d == 4 {
        "4"
    } else if d == 5 {
        "5"
    } else if d == 6 {
        "6"
    } else if d == 7 {
        "7"
    } else if d == 8 {
        "8"
    } else {
        "9"
    }
}

/// The decimal form of an unsigned integer.
pub fn decimal_u64(n: u64) -> (r: String)
    ensures
        r@ == decimal(n as int),
    decreases n,
{
    if n < 10 {
        digit_text(n).to_owned()
    } else {
        let mut r = decimal_u64(n / 10);
        r.append(digit_text(n % 10));
        r
    }
}

/// The decimal form of a signed integer.
pub fn decimal_i64(n: i64) -> (r: String)
    ensures
        r@ == decimal(n as int),
{
    if n < 0 {
        let magnitude: u64 = (-(n as i128)) as u64;
        let digits = decimal_u64(magnitude);
        let mut r = "-".to_owned();
        r.append(digits.as_str());
        r
    } else {
        decimal_u64(n as u64)
    }
}

/// A run of spaces.
pub open spec fn spaces(count: nat) -> Seq<char>
    decreases count,
{
    if count == 0 {
        Seq::empty()
    } else {
        spaces((count - 1) as nat) + " "@
    }
}

/// The spaces that bring a text to a width.
pub open spec fn fill(text: Seq<char>, width: nat) -> Seq<char> {
    if text.len() < width {
        spaces((width - text.len()) as nat)
    } else {
        Seq::empty()
    }
}

fn spaces_text(count: usize) -> (r: String)
    ensures
        r@ == spaces(count as nat),
{
    let mut r = String::new();
    let mut i: usize = 0;
    while i < count
        invariant
            i <= count,
            r@ == spaces(i as nat),
        decreases count - i,
    {
        r.append(" ");
        i = i + 1;
    }
    r
}

fn fill_text(text: &str, width: usize) -> (r: String)
    ensures
        r@ == fill(text@, width as nat),
{
    let len = text.unicode_len();
    if len < width {
        spaces_text(width - len)
    } else {
        String::new()
    }
}

/// A text with spaces behind it up to a width.
pub fn pad_right(text: &str, width: usize) -> (r: String)
    ensures
        r@ == text@ + fill(text@, width as nat),
{
    let gap = fill_text(text, width);
    let mut r = text.to_owned();
    r.append(gap.as_str());
    r
}

/// A text with spaces in front of it up to a width.
pub fn pad_left(text: &str, width: usize) -> (r: String)
    ensures
        r@ == fill(text@, width as nat) + text@,
{
    let mut r = fill_text(text, width);
    r.append(text);
    r
}

/// The lower-case hexadecimal digit of a value below sixteen.
pub open spec fn hex_digit(d: int) -> Seq<char> {
    if d < 10 {
        digit(d)
    } else if d == 10 {
        "a"@
    } else if d == 11 {
        "b"@
    } else if d == 12 {
        "c"@
    } else if d == 13 {
        "d"@
    } else if d == 14 {
        "e"@
    } else {
        "f"@
    }
}

/// Two lower-case hexadecimal digits for each byte, the high one first.
pub open spec fn hex(bytes: Seq<u8>) -> Seq<char>
    decreases bytes.len(),
{
    if bytes.len() == 0 {
        Seq::empty()
    } else {
        hex(bytes.drop_last()) + hex_digit(bytes.last() as int / 16) + hex_digit(
            bytes.last() as int % 16,
        )
    }
}

fn hex_digit_text(d: u8) -> (r: &'static str)
    requires
        d < 16,
    ensures
        r@ == hex_digit(d as int),
{
    if d < 10 {
        digit_text(d as u64)
    } else if d == 10 {
        "a"
    } else if d == 11 {
        "b"
    } else if d == 12 {
        "c"
    } else if d == 13 {
        "d"
    } else if d == 14 {
        "e"
    } else {
        "f"
    }
}

/// The lower-case hexadecimal form of a byte string.
pub fn hex_text(bytes: &[u8]) -> (r: String)
    ensures
        r@ == hex(bytes@),
{
    let mut r = String::new();
    let mut i: usize = 0;
    while i < bytes.len()
        invariant
            i <= bytes@.len(),
            r@ == hex(bytes@.take(i as int)),
        decreases bytes@.len() - i,
    {
        let byte: u8 = bytes[i];
        r.append(hex_digit_text(byte / 16));
        r.append(hex_digit_text(byte % 16));
        assert(bytes@.take(i + 1).drop_last() == bytes@.take(i as int));
        i = i + 1;
    }
    assert(bytes@.take(i as int) == bytes@);
    r
}

/// The position of the first zero byte, or the number of bytes.
pub open spec fn first_zero(bytes: Seq<u8>) -> int
    decreases bytes.len(),
{
    if bytes.len() == 0 || bytes[0] == 0 {
        0
    } else {
        1 + first_zero(bytes.drop_first())
    }
}

/// The position of the first zero byte in a text's UTF-8 form.
pub fn find_zero(text: &str) -> (r: Option<usize>)
    ensures
        match r {
            Some(at) => at == first_zero(encode_utf8(text@)) && at < encode_utf8(text@).len(),
            None => first_zero(encode_utf8(text@)) == encode_utf8(text@).len(),
        },
{
    let bytes = text.as_bytes();
    let mut i: usize = 0;
    assert(bytes@.skip(0) == bytes@);
    while i < bytes.len()
        invariant
            i <= bytes@.len(),
            bytes@ == encode_utf8(text@),
            first_zero(bytes@) == i + first_zero(bytes@.skip(i as int)),
        decreases bytes@.len() - i,
    {
        if bytes[i] == 0 {
            return Some(i);
        }
        assert(bytes@.skip(i as int).drop_first() == bytes@.skip(i + 1));
        i = i + 1;
    }
    None
}

/// Two texts one after the other.
pub fn join2(a: &str, b: &str) -> (r: String)
    ensures
        r@ == a@ + b@,
{
    let mut r = a.to_owned();
    r.append(b);
    r
}

/// Three texts one after the other.
pub fn join3(a: &str, b: &str, c: &str) -> (r: String)
    ensures
        r@ == a@ + b@ + c@,
{
    let mut r = join2(a, b);
    r.append(c);
    r
}

/// Five texts one after the other.
pub fn join5(a: &str, b: &str, c: &str, d: &str, e: &str) -> (r: String)
    ensures
        r@ == a@ + b@ + c@ + d@ + e@,
{
    let mut r = join3(a, b, c);
    r.append(d);
    r.append(e);
    r
}

/// Seven texts one after the other.
pub fn join7(a: &str, b: &str, c: &str, d: &str, e: &str, f: &str, g: &str) -> (r: String)
    ensures
        r@ == a@ + b@ + c@ + d@ + e@ + f@ + g@,
{
    let mut r = join5(a, b, c, d, e);
    r.append(f);
    r.append(g);
    r
}

/// `String::from_utf8`. Trusted: a byte string that is UTF-8 becomes the text it
/// encodes, any other is refused.
#[verifier::external_body]
pub(crate) fn utf8_text(bytes: Vec<u8>) -> (r: Option<String>)
    ensures
        r is Some == valid_utf8(bytes@),
        r matches Some(text) ==> text@ == decode_utf8(bytes@),
{
    String::from_utf8(bytes).ok()
}

/// What `{:?}` prints for a text: the text in double quotes, with the
/// characters that need it escaped.
pub uninterp spec fn debug_form(text: Seq<char>) -> Seq<char>;

/// `str`'s `Debug` form, as `format!("{:?}", text)` gives it. Trusted: the
/// result is a function of the characters of the text. Which characters are
/// escaped is not stated.
#[verifier::external_body]
pub(crate) fn quoted(text: &str) -> (r: String)
    ensures
        r@ == debug_form(text@),
{
    format!("{:?}", text)
}

/// The `Debug` form of an optional text, over the form of the text in it.
pub open spec fn option_debug_form(text: Option<Seq<char>>) -> Seq<char> {
    match text {
        Some(text) => "Some("@ + debug_form(text) + ")"@,
        None => "None"@,
    }
}

/// An optional text, as Rust prints it for debugging.
pub fn quoted_option(text: Option<&str>) -> (r: String)
    ensures
        r@ == option_debug_form(
            match text {
                Some(text) => Some(text@),
                None => None,
            },
        ),
{
    match text {
        Some(text) => {
            let inner = quoted(text);
            let mut r = "Some(".to_owned();
            r.append(inner.as_str());
            r.append(")");
            r
        },
        None => "None".to_owned(),
    }
}

/// The first zero byte is found: it stands at the position that is told, none
/// stands in front of it, and the position is the number of bytes exactly where
/// there is none.
pub proof fn law_first_zero_byte(bytes: Seq<u8>)
    ensures
        0 <= first_zero(bytes) <= bytes.len(),
        first_zero(bytes) < bytes.len() ==> bytes[first_zero(bytes)] == 0,
        forall|i: int| 0 <= i < first_zero(bytes) ==> #[trigger] bytes[i] != 0,
        first_zero(bytes) == bytes.len() <==> !bytes.contains(0),
    decreases bytes.len(),
{
    if bytes.len() > 0 && bytes[0] != 0 {
        let rest = bytes.drop_first();
        law_first_zero_byte(rest);
        assert forall|i: int| 0 <= i < first_zero(bytes) implies #[trigger] bytes[i] != 0 by {
            if i > 0 {
                assert(rest[i - 1] == bytes[i]);
            }
        }
        if rest.contains(0) {
            let i = choose|i: int| 0 <= i < rest.len() && rest[i] == 0;
            assert(bytes[i + 1] == 0);
        }
        if bytes.contains(0) {
            let i = choose|i: int| 0 <= i < bytes.len() && bytes[i] == 0;
            assert(rest[i - 1] == 0);
        }
    }
}

/// Decimal forms are positional: the last character is the digit of the
/// remainder by ten, what is in front of it is the form of the quotient, and a
/// negative number is the form of its magnitude behind a minus sign.
pub proof fn law_decimal_is_positional(n: nat)
    ensures
        decimal(n as int).len() > 0,
        decimal(n as int).last() as int == '0' as int + n % 10,
        n < 10 ==> decimal(n as int).len() == 1,
        n >= 10 ==> decimal(n as int).drop_last() == decimal((n / 10) as int),
        n > 0 ==> decimal(-(n as int)) == seq!['-'] + decimal(n as int),
{
    reveal_strlit("-");
    lemma_digit((n % 10) as int);
    if n >= 10 {
        assert(decimal(n as int).drop_last() =~= decimal((n / 10) as int));
    }
    if n > 0 {
        assert("-"@ =~= seq!['-']);
    }
}

/// A hexadecimal form has two characters for each byte, in the order of the
/// bytes: the high half first, then the low one, each a digit or a lower-case
/// letter.
pub proof fn law_hex_is_positional(bytes: Seq<u8>, i: int)
    requires
        0 <= i < bytes.len(),
    ensures
        hex(bytes).len() == 2 * bytes.len(),
        ({
            let high = bytes[i] as int / 16;
            let low = bytes[i] as int % 16;
            &&& hex(bytes)[2 * i] as int == (if high < 10 {
                '0' as int + high
            } else {
                'a' as int + high - 10
            })
            &&& hex(bytes)[2 * i + 1] as int == (if low < 10 {
                '0' as int + low
            } else {
                'a' as int + low - 10
            })
        }),
    decreases bytes.len(),
{
    lemma_hex_len(bytes);
    let front = bytes.drop_last();
    lemma_hex_len(front);
    lemma_hex_digit(bytes.last() as int / 16);
    lemma_hex_digit(bytes.last() as int % 16);
    if i < front.len() {
        law_hex_is_positional(front, i);
    }
}

proof fn lemma_hex_digit(d: int)
    requires
        0 <= d < 16,
    ensures
        hex_digit(d).len() == 1,
        hex_digit(d)[0] as int == (if d < 10 {
            '0' as int + d
        } else {
            'a' as int + d - 10
        }),
{
    reveal_strlit("a");
    reveal_strlit("b");
    reveal_strlit("c");
    reveal_strlit("d");
    reveal_strlit("e");
    reveal_strlit("f");
    if d < 10 {
        lemma_digit(d);
    }
}

proof fn lemma_hex_len(bytes: Seq<u8>)
    ensures
        hex(bytes).len() == 2 * bytes.len(),
    decreases bytes.len(),
{
    if bytes.len() > 0 {
        lemma_hex_len(bytes.drop_last());
        lemma_hex_digit(bytes.last() as int / 16);
        lemma_hex_digit(bytes.last() as int % 16);
    }
}

/// What fills a text up to a width is spaces, as many as are missing.
pub proof fn law_texts_are_filled_up(text: Seq<char>, width: nat)
    ensures
        fill(text, width).len() == (if text.len() < width {
            width - text.len()
        } else {
            0
        }),
        forall|i: int| 0 <= i < fill(text, width).len() ==> #[trigger] fill(text, width)[i] == ' ',
{
    if text.len() < width {
        lemma_spaces((width - text.len()) as nat);
    }
}

proof fn lemma_spaces(count: nat)
    ensures
        spaces(count).len() == count,
        forall|i: int| 0 <= i < count ==> #[trigger] spaces(count)[i] == ' ',
    decreases count,
{
    reveal_strlit(" ");
    if count > 0 {
        lemma_spaces((count - 1) as nat);
    }
}

/// A text is blank exactly where each of its characters is a tab, a line break, a
/// space or another of Unicode's white space characters; an empty one is.
pub proof fn law_blank_texts_are_white_space(text: Seq<char>)
    ensures
        blank(text) <==> forall|i: int|
            0 <= i < text.len() ==> {
                let code = (#[trigger] text[i]) as u32;
                ||| 0x09 <= code <= 0x0d
                ||| code == 0x20 || code == 0x85 || code == 0xa0 || code == 0x1680
                ||| 0x2000 <= code <= 0x200a
                ||| code == 0x2028 || code == 0x2029 || code == 0x202f || code == 0x205f
                ||| code == 0x3000
            },
{
    if blank(text) {
        assert forall|i: int| 0 <= i < text.len() implies {
            let code = (#[trigger] text[i]) as u32;
            ||| 0x09 <= code <= 0x0d
            ||| code == 0x20 || code == 0x85 || code == 0xa0 || code == 0x1680
            ||| 0x2000 <= code <= 0x200a
            ||| code == 0x2028 || code == 0x2029 || code == 0x202f || code == 0x205f
            ||| code == 0x3000
        } by {
            assert(is_white_space(text[i]));
        }
    }
}

/// Texts are in the order of dictionaries over their UTF-8 bytes: at the first
/// place where two differ, the one with the smaller byte comes first, and a text
/// comes before every longer one that starts with it.
pub proof fn law_texts_are_in_dictionary_order(a: Seq<char>, b: Seq<char>)
    ensures
        text_before(a, b) <==> exists|at: int|
            0 <= at <= encode_utf8(a).len() && at < encode_utf8(b).len()
                && #[trigger] encode_utf8(a).take(at) == encode_utf8(b).take(at) && (at
                == encode_utf8(a).len() || encode_utf8(a)[at] < encode_utf8(b)[at]),
{
    lemma_dictionary_order(encode_utf8(a), encode_utf8(b));
}

proof fn lemma_dictionary_order(a: Seq<u8>, b: Seq<u8>)
    ensures
        bytes_before(a, b) <==> exists|at: int|
            0 <= at <= a.len() && at < b.len() && #[trigger] a.take(at) == b.take(at) && (at
                == a.len() || a[at] < b[at]),
    decreases a.len(),
{
    if b.len() > 0 {
        if a.len() == 0 {
            assert(a.take(0) =~= b.take(0));
        } else if a[0] != b[0] {
            if a[0] < b[0] {
                assert(a.take(0) =~= b.take(0));
            } else {
                assert forall|at: int|
                    0 <= at <= a.len() && at < b.len() && #[trigger] a.take(at) == b.take(
                        at,
                    ) implies !(at == a.len() || a[at] < b[at]) by {
                    if at > 0 {
                        assert(a.take(at)[0] == b.take(at)[0]);
                    }
                }
            }
        } else {
            let rest_a = a.drop_first();
            let rest_b = b.drop_first();
            lemma_dictionary_order(rest_a, rest_b);
            if bytes_before(rest_a, rest_b) {
                let at = choose|at: int|
                    0 <= at <= rest_a.len() && at < rest_b.len() && #[trigger] rest_a.take(at)
                        == rest_b.take(at) && (at == rest_a.len() || rest_a[at] < rest_b[at]);
                assert(a.take(at + 1) =~= seq![a[0]] + rest_a.take(at));
                assert(b.take(at + 1) =~= seq![b[0]] + rest_b.take(at));
                assert(a.take(at + 1) == b.take(at + 1));
            }
            if exists|at: int|
                0 <= at <= a.len() && at < b.len() && #[trigger] a.take(at) == b.take(at) && (at
                    == a.len() || a[at] < b[at]) {
                let at = choose|at: int|
                    0 <= at <= a.len() && at < b.len() && #[trigger] a.take(at) == b.take(at) && (
                    at == a.len() || a[at] < b[at]);
                assert(at > 0);
                assert(rest_a.take(at - 1) =~= a.take(at).drop_first());
                assert(rest_b.take(at - 1) =~= b.take(at).drop_first());
                assert(rest_a.take(at - 1) == rest_b.take(at - 1));
            }
        }
    }
}

} // verus!
