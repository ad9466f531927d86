//! Text utilities shared by the rest of the crate: byte-offset slicing of UTF-8
//! text, decimal formatting and parsing, and string building.
use vstd::prelude::*;
use vstd::string::*;
use vstd::utf8::*;

verus! {

/// The UTF-8 bytes of a character sequence.
pub open spec fn utf8_of(s: Seq<char>) -> Seq<u8> {
    encode_utf8(s)
}

/// The characters encoded by a byte sequence (meaningful when it is valid UTF-8).
pub open spec fn text_of(b: Seq<u8>) -> Seq<char> {
    decode_utf8(b)
}

/// Every encoded character sequence is valid UTF-8 and decodes back to itself.
pub proof fn lemma_utf8_round_trip(s: Seq<char>)
    ensures
        valid_utf8(utf8_of(s)),
        text_of(utf8_of(s)) == s,
{
    encode_utf8_valid_utf8(s);
    encode_utf8_decode_utf8(s);
}

/// A character boundary of `b` at or after the boundary `a` is a boundary of the suffix starting at `a`.
pub proof fn lemma_boundary_in_suffix(b: Seq<u8>, a: int, i: int)
    requires
        valid_utf8(b),
        0 <= a <= i <= b.len(),
        is_char_boundary(b, a),
        is_char_boundary(b, i),
    ensures
        valid_utf8(b.subrange(a, b.len() as int)),
        is_char_boundary(b.subrange(a, b.len() as int), i - a),
{
    let t = b.subrange(a, b.len() as int);
    valid_utf8_split(b, a);
    if i == b.len() {
        is_char_boundary_start_end_of_seq(t);
    } else {
        is_char_boundary_iff_not_is_continuation_byte(b, i);
        assert(t[i - a] == b[i]);
        is_char_boundary_iff_not_is_continuation_byte(t, i - a);
    }
}

/// A character boundary of `b` at or before the boundary `e` is a boundary of the prefix ending at `e`.
pub proof fn lemma_boundary_in_prefix(b: Seq<u8>, e: int, i: int)
    requires
        valid_utf8(b),
        0 <= i <= e <= b.len(),
        is_char_boundary(b, e),
        is_char_boundary(b, i),
    ensures
        valid_utf8(b.subrange(0, e)),
        is_char_boundary(b.subrange(0, e), i),
{
    let t = b.subrange(0, e);
    valid_utf8_split(b, e);
    if i == e {
        is_char_boundary_start_end_of_seq(t);
    } else {
        is_char_boundary_iff_not_is_continuation_byte(b, i);
        assert(t[i] == b[i]);
        is_char_boundary_iff_not_is_continuation_byte(t, i);
    }
}

/// The text of `s` between the byte offsets `start` and `end`, both of which
/// must fall on character boundaries (the slice `&s[start..end]`).
pub fn str_slice(s: &str, start: usize, end: usize) -> (r: &str)
    requires
        start <= end <= s.spec_bytes().len(),
        is_char_boundary(s.spec_bytes(), start as int),
        is_char_boundary(s.spec_bytes(), end as int),
    ensures
        r.spec_bytes() == s.spec_bytes().subrange(start as int, end as int),
        r@ == text_of(s.spec_bytes().subrange(start as int, end as int)),
{
    let ghost b = s.spec_bytes();
    proof {
        lemma_utf8_round_trip(s@);
        lemma_boundary_in_suffix(b, start as int, end as int);
    }
    let (_, tail) = s.split_at(start);
    let (mid, _) = tail.split_at(end - start);
    proof {
        assert(mid.spec_bytes() =~= b.subrange(start as int, end as int));
        lemma_utf8_round_trip(mid@);
    }
    mid
}


/// Appends one character to a string.
///
/// Trusted: calls `String::push`, whose documentation states that it appends
/// the given `char` to the end of the string; the contract claims exactly that.
#[verifier::external_body]
pub fn string_push(s: &mut String, c: char)
    ensures
        final(s)@ == old(s)@.push(c),
{
    s.push(c);
}

/// The character of a decimal digit `d < 10`.
pub open spec fn digit_char(d: int) -> char {
    (48 + d) as char
}

/// The decimal representation of a natural number, most significant digit first,
/// as `u64`'s `Display` writes it.
pub open spec fn decimal(n: nat) -> Seq<char>
    decreases n,
{
    if n < 10 {
        seq![digit_char(n as int)]
    } else {
        decimal(n / 10).push(digit_char((n % 10) as int))
    }
}

/// The decimal representation of a signed integer, as `i64`'s `Display` writes it.
pub open spec fn signed_decimal(n: int) -> Seq<char> {
    if n < 0 {
        seq!['-'] + decimal((-n) as nat)
    } else {
        decimal(n as nat)
    }
}

fn digit_to_char(d: u64) -> (c: char)
    requires
        d < 10,
    ensures
        c == digit_char(d as int),
{
    let b: u8 = 48u8 + (d as u8);
    b as char
}

/// Appends the decimal representation of `n` to `s`.
pub fn push_decimal(s: &mut String, n: u64)
    ensures
        final(s)@ == old(s)@ + decimal(n as nat),
    decreases n,
{
    if n >= 10 {
        push_decimal(s, n / 10);
    }
    string_push(s, digit_to_char(n % 10));
    proof {
        if n < 10 {
            assert(decimal(n as nat) == seq![digit_char(n as int)]);
        }
    }
    assert(final(s)@ =~= old(s)@ + decimal(n as nat)) by {
        if n >= 10 {
            assert(decimal(n as nat) == decimal((n / 10) as nat).push(digit_char((n % 10) as int)));
        }
    }
}

/// The decimal representation of an unsigned integer (`n.to_string()`).
pub fn u64_to_decimal(n: u64) -> (r: String)
    ensures
        r@ == decimal(n as nat),
{
    let mut s = String::new();
    push_decimal(&mut s, n);
    assert(s@ =~= decimal(n as nat));
    s
}

/// The decimal representation of a signed integer (`n.to_string()`).
pub fn i64_to_decimal(n: i64) -> (r: String)
    ensures
        r@ == signed_decimal(n as int),
{
    let mut s = String::new();
    if n < 0 {
        string_push(&mut s, '-');
        let magnitude: u64 = if n == i64::MIN {
            9223372036854775808u64
        } else {
            (-n) as u64
        };
        push_decimal(&mut s, magnitude);
    } else {
        push_decimal(&mut s, n as u64);
    }
    assert(s@ =~= signed_decimal(n as int));
    s
}

/// Whether a character is an ASCII decimal digit.
pub open spec fn is_digit(c: char) -> bool {
    '0' <= c && c <= '9'
}

/// The value of a sequence of decimal digits, most significant first.
pub open spec fn digits_value(d: Seq<char>) -> nat
    decreases d.len(),
{
    if d.len() == 0 {
        0
    } else {
        digits_value(d.drop_last()) * 10 + ((d.last() as int - 48) as nat)
    }
}

/// The digits of an unsigned number literal: the text after an optional leading `+`.
pub open spec fn unsigned_digits(s: Seq<char>) -> Seq<char> {
    if s.len() > 0 && s[0] == '+' {
        s.drop_first()
    } else {
        s
    }
}

/// What `str::parse::<u64>` gives for a text: the value when the text is an
/// optional `+` followed by at least one ASCII digit and the value fits in a
/// `u64`, nothing otherwise.
pub open spec fn parsed_u64(s: Seq<char>) -> Option<u64> {
    let d = unsigned_digits(s);
    if d.len() > 0 && (forall|i: int| 0 <= i < d.len() ==> is_digit(#[trigger] d[i]))
        && digits_value(d) <= u64::MAX {
        Some(digits_value(d) as u64)
    } else {
        None
    }
}

proof fn lemma_digits_value_grows(d: Seq<char>, k: int)
    requires
        0 <= k <= d.len(),
        forall|i: int| 0 <= i < d.len() ==> is_digit(#[trigger] d[i]),
    ensures
        digits_value(d.take(k)) <= digits_value(d),
    decreases d.len() - k,
{
    if k < d.len() {
        lemma_digits_value_grows(d, k + 1);
        assert(d.take(k + 1).drop_last() =~= d.take(k));
    } else {
        assert(d.take(k) =~= d);
    }
}

/// Parses an unsigned decimal number as `str::parse::<u64>` does.
pub fn parse_u64(s: &str) -> (r: Option<u64>)
    ensures
        r == parsed_u64(s@),
{
    let n = s.unicode_len();
    let mut i: usize = 0;
    if n > 0 && s.get_char(0) == '+' {
        i = 1;
    }
    let ghost d = unsigned_digits(s@);
    assert(d =~= s@.subrange(i as int, n as int));
    if i >= n {
        return None;
    }
    let start = i;
    let mut acc: u64 = 0;
    while i < n
        invariant
            start <= i <= n,
            n == s@.len(),
            d =~= s@.subrange(start as int, n as int),
            d == unsigned_digits(s@),
            d.len() > 0,
            forall|j: int| 0 <= j < i - start ==> is_digit(#[trigger] d[j]),
            acc as nat == digits_value(d.take(i - start)),
        decreases n - i,
    {
        let c = s.get_char(i);
        if !('0' <= c && c <= '9') {
            assert(!is_digit(d[i - start]));
            return None;
        }
        let dv: u64 = (c as u32 - 48u32) as u64;
        assert(d.take(i - start + 1).drop_last() =~= d.take(i - start));
        if acc > (u64::MAX - dv) / 10 {
            proof {
                assert(acc * 10 + dv > u64::MAX) by (nonlinear_arith)
                    requires
                        acc > (u64::MAX - dv) / 10,
                        dv < 10,
                ;
                assert(d.take(i - start + 1).last() == c);
                assert(digits_value(d.take(i - start + 1)) == acc * 10 + dv);
                if forall|j: int| 0 <= j < d.len() ==> is_digit(#[trigger] d[j]) {
                    lemma_digits_value_grows(d, i - start + 1);
                }
            }
            return None;
        }
        proof {
            assert(acc * 10 + dv <= u64::MAX) by (nonlinear_arith)
                requires
                    acc <= (u64::MAX - dv) / 10,
                    dv < 10,
            ;
        }
        acc = acc * 10 + dv;
        i = i + 1;
    }
    assert(d.take(n - start) =~= d);
    Some(acc)
}


/// Text equality (`a == b` on `&str`), decided on the UTF-8 bytes.
pub fn str_eq(a: &str, b: &str) -> (r: bool)
    ensures
        r == (a@ == b@),
{
    let x = a.as_bytes();
    let y = b.as_bytes();
    proof {
        lemma_utf8_round_trip(a@);
        lemma_utf8_round_trip(b@);
    }
    if x.len() != y.len() {
        return false;
    }
    let mut i: usize = 0;
    while i < x.len()
        invariant
            x@ == a.spec_bytes(),
            y@ == b.spec_bytes(),
            x.len() == y.len(),
            i <= x.len(),
            forall|k: int| 0 <= k < i ==> x@[k] == y@[k],
        decreases x.len() - i,
    {
        if x[i] != y[i] {
            return false;
        }
        i = i + 1;
    }
    assert(x@ =~= y@);
    true
}

/// The text of an optional string.
pub open spec fn opt_text(o: Option<String>) -> Option<Seq<char>> {
    match o {
        None => None,
        Some(s) => Some(s@),
    }
}

/// The concatenation of three texts as a new string.
pub fn concat3(a: &str, b: &str, c: &str) -> (r: String)
    ensures
        r@ == a@ + b@ + c@,
{
    let mut s = a.to_owned();
    s.append(b);
    s.append(c);
    s
}


/// Whether Unicode counts a non-ASCII character as alphabetic or numeric.
pub uninterp spec fn unicode_alphanumeric(c: char) -> bool;

/// Whether a character is an ASCII letter or digit (`[a-zA-Z0-9]`).
pub open spec fn ascii_alphanumeric(c: char) -> bool {
    (97 <= (c as u32) <= 122) || (65 <= (c as u32) <= 90) || (48 <= (c as u32) <= 57)
}

/// Whether a character is alphabetic or numeric (what `char::is_alphanumeric`
/// returns): on ASCII exactly the letters and digits, beyond ASCII as Unicode says.
pub open spec fn is_alphanumeric(c: char) -> bool {
    if (c as u32) < 128 {
        ascii_alphanumeric(c)
    } else {
        unicode_alphanumeric(c)
    }
}

/// Whether a character is alphanumeric.
///
/// Trusted: calls `char::is_alphanumeric`, documented as `is_alphabetic() ||
/// is_numeric()`: the Unicode `Alphabetic` property or a numeric general
/// category. Within ASCII these hold exactly of `A`-`Z`, `a`-`z` and `0`-`9`
/// (std checks those ranges first), which the contract states; beyond ASCII
/// the answer is only named `unicode_alphanumeric`.
#[verifier::external_body]
pub fn char_is_alphanumeric(c: char) -> (r: bool)
    ensures
        r == (if (c as u32) < 128 {
            ascii_alphanumeric(c)
        } else {
            unicode_alphanumeric(c)
        }),
{
    c.is_alphanumeric()
}

/// Whether some character of `s` is alphanumeric
/// (`s.chars().any(char::is_alphanumeric)`).
pub fn has_alphanumeric(s: &str) -> (r: bool)
    ensures
        r == exists|i: int| 0 <= i < s@.len() && is_alphanumeric(#[trigger] s@[i]),
{
    let n = s.unicode_len();
    let mut i: usize = 0;
    while i < n
        invariant
            n == s@.len(),
            i <= n,
            forall|k: int| 0 <= k < i ==> !is_alphanumeric(#[trigger] s@[k]),
        decreases n - i,
    {
        if char_is_alphanumeric(s.get_char(i)) {
            return true;
        }
        i = i + 1;
    }
    false
}


/// The texts of a list of strings.
pub open spec fn texts(v: Seq<String>) -> Seq<Seq<char>> {
    v.map_values(|s: String| s@)
}

/// The texts joined with `sep` between consecutive ones (`[..].join(sep)`).
pub open spec fn joined(parts: Seq<Seq<char>>, sep: Seq<char>) -> Seq<char>
    decreases parts.len(),
{
    if parts.len() == 0 {
        seq![]
    } else if parts.len() == 1 {
        parts[0]
    } else {
        joined(parts.drop_last(), sep) + sep + parts.last()
    }
}

/// Where the `i`-th part starts when the parts are laid one after another
/// with `sep_len` characters between neighbours.
pub open spec fn part_start(parts: Seq<Seq<char>>, sep_len: int, i: int) -> int
    decreases i,
{
    if i <= 0 {
        0
    } else {
        part_start(parts, sep_len, i - 1) + parts[i - 1].len() + sep_len
    }
}

proof fn lemma_part_start_drop_last(parts: Seq<Seq<char>>, sep_len: int, i: int)
    requires
        0 <= i < parts.len(),
    ensures
        part_start(parts.drop_last(), sep_len, i) == part_start(parts, sep_len, i),
    decreases i,
{
    if i > 0 {
        lemma_part_start_drop_last(parts, sep_len, i - 1);
        assert(parts.drop_last()[i - 1] == parts[i - 1]);
    }
}

proof fn lemma_part_start_nonneg(parts: Seq<Seq<char>>, sep_len: int, i: int)
    requires
        0 <= sep_len,
    ensures
        0 <= part_start(parts, sep_len, i),
    decreases i,
{
    if i > 0 {
        lemma_part_start_nonneg(parts, sep_len, i - 1);
    }
}

proof fn lemma_part_start_grows(parts: Seq<Seq<char>>, sep_len: int, i: int, k: int)
    requires
        0 <= i < k,
        0 <= sep_len,
    ensures
        part_start(parts, sep_len, i) + parts[i].len() + sep_len <= part_start(parts, sep_len, k),
    decreases k,
{
    if k > i + 1 {
        lemma_part_start_grows(parts, sep_len, i, k - 1);
    }
}

/// Joining `n >= 1` parts lays them out in order with exactly one separator
/// between each pair of neighbours and none elsewhere: the result is as long
/// as the parts together plus `n - 1` separators, part `i` stands right after
/// the `i`-th separator, and each separator stands right after its part.
pub proof fn law_join_places_parts_and_separators(parts: Seq<Seq<char>>, sep: Seq<char>)
    requires
        parts.len() >= 1,
    ensures
        joined(parts, sep).len() == part_start(parts, sep.len() as int, parts.len() - 1) + parts.last().len(),
        forall|i: int|
            0 <= i < parts.len() ==> joined(parts, sep).subrange(
                #[trigger] part_start(parts, sep.len() as int, i),
                part_start(parts, sep.len() as int, i) + parts[i].len(),
            ) == parts[i],
        forall|i: int|
            0 <= i < parts.len() - 1 ==> joined(parts, sep).subrange(
                #[trigger] part_start(parts, sep.len() as int, i) + parts[i].len(),
                part_start(parts, sep.len() as int, i + 1),
            ) == sep,
    decreases parts.len(),
{
    let sl = sep.len() as int;
    if parts.len() == 1 {
        assert(joined(parts, sep).subrange(0, parts[0].len() as int) =~= parts[0]);
    } else {
        let t = parts.drop_last();
        let n = parts.len() - 1;
        law_join_places_parts_and_separators(t, sep);
        let j = joined(t, sep);
        let all = joined(parts, sep);
        assert(all == j + sep + parts.last());
        lemma_part_start_drop_last(parts, sl, n - 1);
        assert(t.last() == parts[n - 1]);
        assert(part_start(parts, sl, n) == j.len() + sl);
        assert forall|i: int| 0 <= i < parts.len() implies all.subrange(
            #[trigger] part_start(parts, sl, i),
            part_start(parts, sl, i) + parts[i].len(),
        ) == parts[i] by {
            if i < n {
                lemma_part_start_drop_last(parts, sl, i);
                if i < n - 1 {
                    lemma_part_start_grows(t, sl, i, n - 1);
                }
                lemma_part_start_nonneg(t, sl, i);
                assert(part_start(t, sl, i) + t[i].len() <= j.len());
                assert(t[i] == parts[i]);
                assert(j.subrange(part_start(t, sl, i), part_start(t, sl, i) + t[i].len()) == t[i]);
                assert(all.subrange(part_start(parts, sl, i), part_start(parts, sl, i) + parts[i].len())
                    =~= j.subrange(part_start(t, sl, i), part_start(t, sl, i) + t[i].len()));
            } else {
                assert(all.subrange(part_start(parts, sl, i), part_start(parts, sl, i) + parts[i].len())
                    =~= parts.last());
            }
        }
        assert forall|i: int| 0 <= i < parts.len() - 1 implies all.subrange(
            #[trigger] part_start(parts, sl, i) + parts[i].len(),
            part_start(parts, sl, i + 1),
        ) == sep by {
            lemma_part_start_drop_last(parts, sl, i);
            assert(t[i] == parts[i]);
            if i < n - 1 {
                lemma_part_start_drop_last(parts, sl, i + 1);
                if i + 1 < n - 1 {
                    lemma_part_start_grows(t, sl, i + 1, n - 1);
                }
                lemma_part_start_nonneg(t, sl, i);
                lemma_part_start_grows(t, sl, i, i + 1);
                assert(part_start(t, sl, i + 1) <= j.len());
                assert(j.subrange(part_start(t, sl, i) + t[i].len(), part_start(t, sl, i + 1)) == sep);
                assert(all.subrange(part_start(parts, sl, i) + parts[i].len(), part_start(parts, sl, i + 1))
                    =~= j.subrange(part_start(t, sl, i) + t[i].len(), part_start(t, sl, i + 1)));
            } else {
                assert(all.subrange(part_start(parts, sl, i) + parts[i].len(), part_start(parts, sl, i + 1))
                    =~= sep);
            }
        }
    }
}

/// Joins strings with a separator (`parts.join(sep)`).
pub fn join_strings(parts: &Vec<String>, sep: &str) -> (r: String)
    ensures
        r@ == joined(texts(parts@), sep@),
{
    let mut out = String::new();
    let mut i: usize = 0;
    while i < parts.len()
        invariant
            i <= parts.len(),
            out@ == joined(texts(parts@).take(i as int), sep@),
        decreases parts.len() - i,
    {
        assert(texts(parts@).take(i + 1).drop_last() =~= texts(parts@).take(i as int));
        if i > 0 {
            out.append(sep);
        } else {
            assert(texts(parts@).take(1) =~= seq![parts@[0]@]);
        }
        out.append(parts[i].as_str());
        i = i + 1;
    }
    assert(texts(parts@).take(parts.len() as int) =~= texts(parts@));
    out
}


/// The number of bytes in the UTF-8 encoding of a character sequence.
pub open spec fn utf8_len(s: Seq<char>) -> int {
    utf8_of(s).len() as int
}

/// Encoding a concatenation concatenates the encodings.
pub proof fn lemma_utf8_concat(a: Seq<char>, b: Seq<char>)
    ensures
        utf8_of(a + b) == utf8_of(a) + utf8_of(b),
    decreases a.len(),
{
    if a.len() == 0 {
        assert(a + b =~= b);
        assert(utf8_of(a) =~= Seq::<u8>::empty());
        assert(utf8_of(a) + utf8_of(b) =~= utf8_of(b));
    } else {
        lemma_utf8_concat(a.drop_first(), b);
        assert((a + b).drop_first() =~= a.drop_first() + b);
        assert((a + b)[0] == a[0]);
        assert(utf8_of(a + b) =~= encode_scalar(a[0] as u32) + utf8_of(a.drop_first() + b));
        assert(utf8_of(a) =~= encode_scalar(a[0] as u32) + utf8_of(a.drop_first()));
    }
}

/// Where the encoding of `a` ends inside the encoding of `a + c` is a character boundary.
pub proof fn lemma_boundary_at_seam(a: Seq<char>, c: Seq<char>)
    ensures
        valid_utf8(utf8_of(a + c)),
        is_char_boundary(utf8_of(a + c), utf8_len(a)),
    decreases a.len(),
{
    let w = a + c;
    encode_utf8_valid_utf8(w);
    if a.len() == 0 {
        assert(utf8_of(a) =~= Seq::<u8>::empty());
    } else {
        lemma_boundary_at_seam(a.drop_first(), c);
        encode_utf8_first_scalar(w);
        assert(w.drop_first() =~= a.drop_first() + c);
        assert(w[0] == a[0]);
        assert(utf8_of(w) =~= encode_scalar(w[0] as u32) + utf8_of(w.drop_first()));
        assert(utf8_of(a) =~= encode_scalar(a[0] as u32) + utf8_of(a.drop_first()));
        assert(pop_first_scalar(utf8_of(w)) =~= utf8_of(w.drop_first()));
    }
}

/// The UTF-8 length of a sequence grows by the width of each appended character.
pub proof fn lemma_utf8_len_push(s: Seq<char>, c: char)
    ensures
        utf8_len(s.push(c)) == utf8_len(s) + encode_scalar(c as u32).len(),
{
    lemma_utf8_concat(s, seq![c]);
    assert(s.push(c) =~= s + seq![c]);
    assert(seq![c].drop_first() =~= Seq::<char>::empty());
    assert(utf8_of(seq![c]) =~= encode_scalar(c as u32) + utf8_of(Seq::<char>::empty()));
}

/// The number of bytes a character takes in UTF-8 (`char::len_utf8`).
pub fn utf8_width(c: char) -> (r: usize)
    ensures
        r == encode_scalar(c as u32).len(),
        1 <= r <= 4,
{
    let u = c as u32;
    proof {
        char_is_scalar(c);
    }
    if u < 0x80 {
        1
    } else if u < 0x800 {
        2
    } else if u < 0x10000 {
        3
    } else {
        4
    }
}


/// The text of an optional string slice.
pub open spec fn opt_chars(o: Option<&str>) -> Option<Seq<char>> {
    match o {
        None => None,
        Some(s) => Some(s@),
    }
}

/// A numeric setting: the number its text parses to, or `default` when it is
/// unset or does not parse as a `u64`.
pub open spec fn setting_or(raw: Option<Seq<char>>, default: u64) -> u64 {
    match raw {
        None => default,
        Some(t) => match parsed_u64(t) {
            Some(v) => v,
            None => default,
        },
    }
}

/// Reads a numeric setting, falling back to `default` (never fails).
pub fn numeric_setting(raw: Option<&str>, default: u64) -> (r: u64)
    ensures
        r == setting_or(opt_chars(raw), default),
{
    match raw {
        None => default,
        Some(t) => match parse_u64(t) {
            Some(v) => v,
            None => default,
        },
    }
}

} // verus!
