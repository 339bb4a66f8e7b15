use vstd::prelude::*;
use vstd::string::StrSliceExecFns;

verus! {

/// The characters of `s`, in order.
pub fn chars_of(s: &str) -> (r: Vec<char>)
    ensures
        r@ == s@,
{
    broadcast use vstd::string::group_string_axioms;

    let mut r: Vec<char> = Vec::new();
    for c in it: s.chars()
        invariant
            r@ == it.seq().take(it.index() as int),
            it.seq() == s@,
    {
        r.push(c);
    }
    r
}

/// Unicode `White_Space`: the characters that `char::is_whitespace` accepts.
pub open spec fn is_white_space(c: char) -> bool {
    let u = c as u32;
    ||| 0x09 <= u <= 0x0D
    ||| u == 0x20
    ||| u == 0x85
    ||| u == 0xA0
    ||| u == 0x1680
    ||| 0x2000 <= u <= 0x200A
    ||| u == 0x2028
    ||| u == 0x2029
    ||| u == 0x202F
    ||| u == 0x205F
    ||| u == 0x3000
}

pub fn is_white_space_char(c: char) -> (r: bool)
    ensures
        r == is_white_space(c),
{
    let u = c as u32;
    (0x09 <= u && u <= 0x0D) || u == 0x20 || u == 0x85 || u == 0xA0 || u == 0x1680 || (0x2000
        <= u && u <= 0x200A) || u == 0x2028 || u == 0x2029 || u == 0x202F || u == 0x205F || u
        == 0x3000
}

/// Number of bytes of the UTF-8 encoding of `c`.
pub open spec fn char_width(c: char) -> nat {
    let u = c as u32;
    if u < 0x80 {
        1
    } else if u < 0x800 {
        2
    } else if u < 0x10000 {
        3
    } else {
        4
    }
}

pub fn utf8_width(c: char) -> (r: usize)
    ensures
        r == char_width(c),
        1 <= r <= 4,
{
    let u = c as u32;
    if u < 0x80 {
        1
    } else if u < 0x800 {
        2
    } else if u < 0x10000 {
        3
    } else {
        4
    }
}

/// Number of bytes of the UTF-8 encoding of `s`.
pub open spec fn byte_len(s: Seq<char>) -> nat
    decreases s.len(),
{
    if s.len() == 0 {
        0
    } else {
        byte_len(s.drop_last()) + char_width(s.last())
    }
}

/// Byte offset of the character at index `i` of `s`.
pub open spec fn byte_pos(s: Seq<char>, i: int) -> nat {
    byte_len(s.take(i))
}

pub proof fn lemma_byte_len_concat(a: Seq<char>, b: Seq<char>)
    ensures
        byte_len(a + b) == byte_len(a) + byte_len(b),
    decreases b.len(),
{
    if b.len() > 0 {
        assert((a + b).drop_last() =~= a + b.drop_last());
        lemma_byte_len_concat(a, b.drop_last());
    } else {
        assert(a + b =~= a);
    }
}

pub proof fn lemma_byte_len_encode(s: Seq<char>)
    ensures
        byte_len(s) == vstd::utf8::encode_utf8(s).len(),
    decreases s.len(),
{
    if s.len() > 0 {
        lemma_byte_len_encode(s.drop_first());
        assert(s =~= seq![s[0]] + s.drop_first());
        lemma_byte_len_concat(seq![s[0]], s.drop_first());
        assert(seq![s[0]].drop_last() =~= Seq::<char>::empty());
        vstd::utf8::char_is_scalar(s[0]);
        assert(byte_len(Seq::<char>::empty()) == 0);
        assert(byte_len(seq![s[0]]) == char_width(s[0]));
        assert(char_width(s[0]) == vstd::utf8::encode_scalar(s[0] as u32).len());
        assert(vstd::utf8::encode_utf8(s) == vstd::utf8::encode_scalar(s[0] as u32)
            + vstd::utf8::encode_utf8(s.drop_first()));
    }
}

/// Byte positions grow with the index.
pub proof fn lemma_byte_pos_mono(s: Seq<char>, i: int, j: int)
    requires
        0 <= i <= j <= s.len(),
    ensures
        byte_pos(s, i) <= byte_pos(s, j),
        i < j ==> byte_pos(s, i) < byte_pos(s, j),
    decreases j - i,
{
    if i < j {
        lemma_byte_pos_mono(s, i, j - 1);
        assert(s.take(j).drop_last() =~= s.take(j - 1));
    }
}

/// The byte position after index `i` is the one at `i` plus the width of `s[i]`.
pub proof fn lemma_byte_pos_step(s: Seq<char>, i: int)
    requires
        0 <= i < s.len(),
    ensures
        byte_pos(s, i + 1) == byte_pos(s, i) + char_width(s[i]),
{
    assert(s.take(i + 1).drop_last() =~= s.take(i));
}


pub open spec fn is_digit(c: char) -> bool {
    '0' <= c <= '9'
}

/// Characters that may make up a numeric literal.
pub open spec fn is_number_char(c: char) -> bool {
    is_digit(c) || c == '+' || c == '-' || c == '.'
}

pub open spec fn all_number_chars(w: Seq<char>) -> bool {
    forall|i: int| 0 <= i < w.len() ==> is_number_char(#[trigger] w[i])
}

pub open spec fn all_digits(w: Seq<char>) -> bool {
    forall|i: int| 0 <= i < w.len() ==> is_digit(#[trigger] w[i])
}

pub open spec fn digit_value(c: char) -> nat {
    (c as u32 - '0' as u32) as nat
}

/// The number that the decimal digits `d` denote.
pub open spec fn digits_value(d: Seq<char>) -> nat
    decreases d.len(),
{
    if d.len() == 0 {
        0
    } else {
        digits_value(d.drop_last()) * 10 + digit_value(d.last())
    }
}

/// `w` without its leading sign, if it has one.
pub open spec fn unsigned_part(w: Seq<char>) -> Seq<char> {
    if w.len() > 0 && (w[0] == '+' || w[0] == '-') {
        w.drop_first()
    } else {
        w
    }
}

pub open spec fn is_negative(w: Seq<char>) -> bool {
    w.len() > 0 && w[0] == '-'
}

/// What `i64::from_str` gives: an optional sign and at least one digit,
/// within the range of `i64`.
pub open spec fn parse_i64(w: Seq<char>) -> Option<i64> {
    let d = unsigned_part(w);
    let v: int = if is_negative(w) {
        -digits_value(d)
    } else {
        digits_value(d) as int
    };
    if d.len() > 0 && all_digits(d) && i64::MIN <= v <= i64::MAX {
        Some(v as i64)
    } else {
        None
    }
}

/// Whether `f64::from_str` accepts `w`, for words made of digits, signs and
/// dots only: an optional sign, then digits with at most one dot and at
/// least one digit.
pub open spec fn is_decimal_literal(w: Seq<char>) -> bool {
    let d = unsigned_part(w);
    &&& d.len() > 0
    &&& forall|i: int| 0 <= i < d.len() ==> is_digit(#[trigger] d[i]) || d[i] == '.'
    &&& forall|i: int, j: int|
        0 <= i < j < d.len() ==> !(#[trigger] d[i] == '.' && #[trigger] d[j] == '.')
    &&& !(d.len() == 1 && d[0] == '.')
}

pub proof fn lemma_digits_value_prefix(d: Seq<char>, k: int)
    requires
        0 <= k <= d.len(),
    ensures
        digits_value(d.take(k)) <= digits_value(d),
    decreases d.len() - k,
{
    if k < d.len() {
        lemma_digits_value_prefix(d, k + 1);
        assert(d.take(k + 1).drop_last() =~= d.take(k));
    } else {
        assert(d.take(k) =~= d);
    }
}

/// `i64::from_str` on the characters `s[start..end]`.
pub fn parse_i64_chars(s: &Vec<char>, start: usize, end: usize) -> (r: Option<i64>)
    requires
        start <= end <= s.len(),
    ensures
        r == parse_i64(s@.subrange(start as int, end as int)),
{
    let ghost w = s@.subrange(start as int, end as int);
    let mut i = start;
    let mut neg = false;
    if i < end && (s[i] == '+' || s[i] == '-') {
        neg = s[i] == '-';
        i = i + 1;
    }
    let ghost d = unsigned_part(w);
    assert(d =~= s@.subrange(i as int, end as int));
    if i == end {
        return None;
    }
    let d0 = i;
    let limit: u128 = if neg {
        0x8000_0000_0000_0000
    } else {
        0x7fff_ffff_ffff_ffff
    };
    let mut acc: u128 = 0;
    while i < end
        invariant
            d0 <= i <= end <= s.len(),
            d =~= s@.subrange(d0 as int, end as int),
            w == s@.subrange(start as int, end as int),
            d == unsigned_part(w),
            neg == is_negative(w),
            limit == (if neg { 0x8000_0000_0000_0000u128 } else { 0x7fff_ffff_ffff_ffffu128 }),
            all_digits(d.take(i - d0)),
            acc == digits_value(d.take(i - d0)),
            acc <= limit,
        decreases end - i,
    {
        let c = s[i];
        proof {
            assert(d.take(i - d0 + 1).drop_last() =~= d.take(i - d0));
            assert(d[i - d0] == c);
        }
        if !('0' <= c && c <= '9') {
            proof {
                assert(!is_digit(d[i - d0]));
                assert(!all_digits(d));
            }
            return None;
        }
        let dv = (c as u32 - '0' as u32) as u128;
        acc = acc * 10 + dv;
        i = i + 1;
        if acc > limit {
            proof {
                assert(acc == digits_value(d.take(i - d0)));
                lemma_digits_value_prefix(d, i - d0);
                assert(digits_value(d) > limit);
            }
            return None;
        }
    }
    proof {
        assert(d.take(i - d0) =~= d);
    }
    if neg {
        if acc == 0x8000_0000_0000_0000 {
            Some(i64::MIN)
        } else {
            Some(-(acc as i64))
        }
    } else {
        Some(acc as i64)
    }
}

/// Whether `s[start..end]` satisfies `is_decimal_literal`.
pub fn is_decimal_literal_chars(s: &Vec<char>, start: usize, end: usize) -> (r: bool)
    requires
        start <= end <= s.len(),
    ensures
        r == is_decimal_literal(s@.subrange(start as int, end as int)),
{
    let ghost w = s@.subrange(start as int, end as int);
    let mut i = start;
    if i < end && (s[i] == '+' || s[i] == '-') {
        i = i + 1;
    }
    let ghost d = unsigned_part(w);
    assert(d =~= s@.subrange(i as int, end as int));
    let d0 = i;
    if i == end {
        return false;
    }
    if end - i == 1 && s[i] == '.' {
        return false;
    }
    let mut seen_dot = false;
    let mut dot_at: usize = 0;
    while i < end
        invariant
            d0 <= i <= end <= s.len(),
            d =~= s@.subrange(d0 as int, end as int),
            w == s@.subrange(start as int, end as int),
            d == unsigned_part(w),
            forall|k: int| 0 <= k < i - d0 ==> is_digit(#[trigger] d[k]) || d[k] == '.',
            seen_dot ==> d0 <= dot_at < i && d[dot_at - d0] == '.',
            !seen_dot ==> forall|k: int| 0 <= k < i - d0 ==> #[trigger] d[k] != '.',
            seen_dot ==> forall|k: int|
                0 <= k < i - d0 && k != dot_at - d0 ==> #[trigger] d[k] != '.',
        decreases end - i,
    {
        let c = s[i];
        assert(d[i - d0] == c);
        if c == '.' {
            if seen_dot {
                assert(d[dot_at - d0] == '.' && d[i - d0] == '.');
                return false;
            }
            seen_dot = true;
            dot_at = i;
        } else if !('0' <= c && c <= '9') {
            return false;
        }
        i = i + 1;
    }
    true
}


/// The characters that end a word: white space, parentheses and quotes.
pub open spec fn is_delimiter(c: char) -> bool {
    is_white_space(c) || c == '(' || c == ')' || c == '\'' || c == '"'
}

pub fn is_delimiter_char(c: char) -> (r: bool)
    ensures
        r == is_delimiter(c),
{
    is_white_space_char(c) || c == '(' || c == ')' || c == '\'' || c == '"'
}

/// First index at or after `i` whose character is not white space.
pub open spec fn skip_white_space(s: Seq<char>, i: int) -> int
    decreases s.len() - i,
{
    if 0 <= i < s.len() && is_white_space(s[i]) {
        skip_white_space(s, i + 1)
    } else {
        i
    }
}

/// First index at or after `i` whose character is a delimiter.
pub open spec fn word_end(s: Seq<char>, i: int) -> int
    decreases s.len() - i,
{
    if 0 <= i < s.len() && !is_delimiter(s[i]) {
        word_end(s, i + 1)
    } else {
        i
    }
}

pub proof fn lemma_skip_white_space(s: Seq<char>, i: int)
    requires
        0 <= i <= s.len(),
    ensures
        i <= skip_white_space(s, i) <= s.len(),
        skip_white_space(s, i) < s.len() ==> !is_white_space(s[skip_white_space(s, i)]),
    decreases s.len() - i,
{
    if i < s.len() && is_white_space(s[i]) {
        lemma_skip_white_space(s, i + 1);
    }
}

pub proof fn lemma_word_end(s: Seq<char>, i: int)
    requires
        0 <= i <= s.len(),
    ensures
        i <= word_end(s, i) <= s.len(),
        forall|k: int| i <= k < word_end(s, i) ==> !is_delimiter(#[trigger] s[k]),
    decreases s.len() - i,
{
    if i < s.len() && !is_delimiter(s[i]) {
        lemma_word_end(s, i + 1);
    }
}

/// The digits before the dot of a decimal literal without sign.
pub open spec fn integer_digits(d: Seq<char>) -> Seq<char>
    decreases d.len(),
{
    if d.len() == 0 || d[0] == '.' {
        Seq::empty()
    } else {
        seq![d[0]] + integer_digits(d.drop_first())
    }
}

pub open spec fn strip_leading_zeros(d: Seq<char>) -> Seq<char>
    decreases d.len(),
{
    if d.len() > 0 && d[0] == '0' {
        strip_leading_zeros(d.drop_first())
    } else {
        d
    }
}

/// The decimal digits of 2^1024 - 2^970: the least decimal number that
/// `f64` rounds to infinity.
pub open spec fn float_overflow_digits() -> Seq<char> {
    "179769313486231580793728971405303415079934132710037826936173778980444968292764750946649017977587207096330286416692887910946555547851940402630657488671505820681908902000708383676273854845817711531764475730270069855571366959622842914819860834936475292719074168444365510704342711559699508093042880177904174497792"@
}

/// Whether the digit string `a` (no leading zeros) is below the digit
/// string `b` (no leading zeros) of the same length, compared from the left.
pub open spec fn digits_lex_less(a: Seq<char>, b: Seq<char>) -> bool
    decreases a.len(),
{
    if a.len() == 0 || b.len() == 0 {
        false
    } else if a[0] != b[0] {
        a[0] < b[0]
    } else {
        digits_lex_less(a.drop_first(), b.drop_first())
    }
}

/// Whether the decimal literal `w` denotes a finite `f64`: its integer part
/// is below 2^1024 - 2^970.
pub open spec fn decimal_is_finite(w: Seq<char>) -> bool {
    let n = strip_leading_zeros(integer_digits(unsigned_part(w)));
    let t = float_overflow_digits();
    n.len() < t.len() || (n.len() == t.len() && digits_lex_less(n, t))
}


proof fn lemma_integer_digits(d: Seq<char>, k: int)
    requires
        0 <= k <= d.len(),
        forall|m: int| 0 <= m < k ==> #[trigger] d[m] != '.',
        k == d.len() || d[k] == '.',
    ensures
        integer_digits(d) =~= d.take(k),
    decreases d.len(),
{
    if d.len() > 0 && d[0] != '.' {
        assert forall|m: int| 0 <= m < k - 1 implies #[trigger] d.drop_first()[m] != '.' by {
            assert(d.drop_first()[m] == d[m + 1]);
        }
        lemma_integer_digits(d.drop_first(), k - 1);
        assert(d.take(k) =~= seq![d[0]] + d.drop_first().take(k - 1));
    }
}

proof fn lemma_strip_leading_zeros(d: Seq<char>, z: int)
    requires
        0 <= z <= d.len(),
        forall|m: int| 0 <= m < z ==> #[trigger] d[m] == '0',
        z == d.len() || d[z] != '0',
    ensures
        strip_leading_zeros(d) =~= d.skip(z),
    decreases d.len(),
{
    if d.len() > 0 && d[0] == '0' {
        assert forall|m: int| 0 <= m < z - 1 implies #[trigger] d.drop_first()[m] == '0' by {
            assert(d.drop_first()[m] == d[m + 1]);
        }
        lemma_strip_leading_zeros(d.drop_first(), z - 1);
        assert(d.drop_first().skip(z - 1) =~= d.skip(z));
    } else {
        assert(d.skip(0) =~= d);
    }
}

proof fn lemma_digits_lex_less_skip(a: Seq<char>, b: Seq<char>, j: int)
    requires
        0 <= j <= a.len(),
        j <= b.len(),
        a.take(j) =~= b.take(j),
    ensures
        digits_lex_less(a, b) == digits_lex_less(a.skip(j), b.skip(j)),
    decreases j,
{
    if j > 0 {
        assert(a[0] == a.take(j)[0]);
        assert(b[0] == b.take(j)[0]);
        assert(a.drop_first().take(j - 1) =~= a.take(j).drop_first());
        assert(b.drop_first().take(j - 1) =~= b.take(j).drop_first());
        lemma_digits_lex_less_skip(a.drop_first(), b.drop_first(), j - 1);
        assert(a.drop_first().skip(j - 1) =~= a.skip(j));
        assert(b.drop_first().skip(j - 1) =~= b.skip(j));
    } else {
        assert(a.skip(0) =~= a);
        assert(b.skip(0) =~= b);
    }
}

/// Whether the decimal literal `s[start..end]` denotes a finite `f64`.
pub fn decimal_is_finite_chars(s: &Vec<char>, start: usize, end: usize) -> (r: bool)
    requires
        start <= end <= s.len(),
    ensures
        r == decimal_is_finite(s@.subrange(start as int, end as int)),
{
    let ghost w = s@.subrange(start as int, end as int);
    let mut i = start;
    if i < end && (s[i] == '+' || s[i] == '-') {
        i = i + 1;
    }
    let ghost d = unsigned_part(w);
    assert(d =~= s@.subrange(i as int, end as int));
    let d0 = i;
    let mut k = i;
    while k < end && s[k] != '.'
        invariant
            d0 <= k <= end <= s.len(),
            forall|m: int| d0 <= m < k ==> #[trigger] s@[m] != '.',
        decreases end - k,
    {
        k = k + 1;
    }
    proof {
        lemma_integer_digits(d, k - d0);
    }
    let ghost n0 = integer_digits(d);
    assert(n0 =~= s@.subrange(d0 as int, k as int));
    let mut z = d0;
    while z < k && s[z] == '0'
        invariant
            d0 <= z <= k <= s.len(),
            forall|m: int| d0 <= m < z ==> #[trigger] s@[m] == '0',
        decreases k - z,
    {
        z = z + 1;
    }
    proof {
        lemma_strip_leading_zeros(n0, z - d0);
    }
    let ghost n = strip_leading_zeros(n0);
    assert(n =~= s@.subrange(z as int, k as int));
    let limit = chars_of(
        "179769313486231580793728971405303415079934132710037826936173778980444968292764750946649017977587207096330286416692887910946555547851940402630657488671505820681908902000708383676273854845817711531764475730270069855571366959622842914819860834936475292719074168444365510704342711559699508093042880177904174497792",
    );
    let ghost t = float_overflow_digits();
    assert(limit@ == t);
    let len = k - z;
    if len < limit.len() {
        return true;
    }
    if len > limit.len() {
        return false;
    }
    let mut j: usize = 0;
    while j < len
        invariant
            len == limit.len() == t.len(),
            z + len == k <= s.len(),
            n =~= s@.subrange(z as int, k as int),
            limit@ == t,
            0 <= j <= len,
            n.take(j as int) =~= t.take(j as int),
            w == s@.subrange(start as int, end as int),
            n == strip_leading_zeros(integer_digits(unsigned_part(w))),
            t == float_overflow_digits(),
        decreases len - j,
    {
        let a = s[z + j];
        let b = limit[j];
        assert(n[j as int] == a);
        if a != b {
            proof {
                lemma_digits_lex_less_skip(n, t, j as int);
                assert(n.skip(j as int)[0] == a);
                assert(t.skip(j as int)[0] == b);
                assert(n.skip(j as int).len() > 0 && t.skip(j as int).len() > 0);
                assert(digits_lex_less(n.skip(j as int), t.skip(j as int)) == (a < b));
                assert(digits_lex_less(n, t) == (a < b));
            }
            return a < b;
        }
        assert(n.take(j + 1) =~= t.take(j + 1));
        j = j + 1;
    }
    proof {
        lemma_digits_lex_less_skip(n, t, j as int);
        assert(n.skip(j as int).len() == 0);
    }
    false
}


/// Whether `s` fits after `total` bytes: the sum of both lengths in bytes
/// stays below `usize::MAX`.
pub fn fits_after(total: usize, s: &str) -> (r: bool)
    ensures
        r == (total + byte_len(s@) < usize::MAX),
{
    if total == usize::MAX {
        return false;
    }
    let chars = chars_of(s);
    let mut sum = total;
    let mut i: usize = 0;
    assert(chars@.take(0) =~= Seq::<char>::empty());
    while i < chars.len()
        invariant
            0 <= i <= chars@.len(),
            chars@ == s@,
            sum == total + byte_len(chars@.take(i as int)),
            sum < usize::MAX,
        decreases chars@.len() - i,
    {
        let w = utf8_width(chars[i]);
        assert(chars@.take(i + 1).drop_last() =~= chars@.take(i as int));
        if sum >= usize::MAX - w {
            proof {
                lemma_byte_len_prefix(chars@, i + 1);
            }
            return false;
        }
        sum = sum + w;
        i = i + 1;
    }
    assert(chars@.take(chars@.len() as int) =~= chars@);
    true
}

/// A prefix is no longer in bytes than the whole.
pub proof fn lemma_byte_len_prefix(s: Seq<char>, k: int)
    requires
        0 <= k <= s.len(),
    ensures
        byte_len(s.take(k)) <= byte_len(s),
    decreases s.len() - k,
{
    if k < s.len() {
        lemma_byte_len_prefix(s, k + 1);
        assert(s.take(k + 1).drop_last() =~= s.take(k));
    } else {
        assert(s.take(k) =~= s);
    }
}

/// `String::push`: appends `c` to `s`.
#[verifier::external_body]
pub(crate) fn push_char(s: &mut String, c: char)
    ensures
        final(s)@ == old(s)@.push(c),
{
    s.push(c);
}


/// Whether the two texts hold the same characters.
pub(crate) fn str_eq(a: &str, b: &str) -> (r: bool)
    ensures
        r == (a@ == b@),
{
    let n = a.unicode_len();
    if n != b.unicode_len() {
        return false;
    }
    let mut i: usize = 0;
    while i < n
        invariant
            n == a@.len(),
            n == b@.len(),
            0 <= i <= n,
            forall|k: int| 0 <= k < i ==> a@[k] == b@[k],
        decreases n - i,
    {
        if a.get_char(i) != b.get_char(i) {
            return false;
        }
        i = i + 1;
    }
    assert(a@ =~= b@);
    true
}

} // verus!
