use vstd::prelude::*;
use vstd::string::*;

verus! {

// ---------------------------------------------------------------------------
// Characters and decimal numerals
// ---------------------------------------------------------------------------

pub open spec fn is_digit(c: char) -> bool {
    48 <= c as int <= 57
}

pub open spec fn digit_val(c: char) -> int {
    c as int - 48
}

pub open spec fn all_digits(s: Seq<char>) -> bool {
    forall|i: int| 0 <= i < s.len() ==> is_digit(s[i])
}

/// The value of a sequence of decimal digit characters.
pub open spec fn dec_val(s: Seq<char>) -> int
    decreases s.len(),
{
    if s.len() == 0 {
        0
    } else {
        dec_val(s.drop_last()) * 10 + digit_val(s.last())
    }
}

pub open spec fn digit_char(d: int) -> char {
    ((48 + d) as u8) as char
}

/// The decimal numeral of a non-negative number, most significant digit
/// first and without leading zeros.
pub open spec fn dec_chars(n: int) -> Seq<char>
    decreases n,
{
    if n < 0 {
        Seq::empty()
    } else if n < 10 {
        seq![digit_char(n)]
    } else {
        dec_chars(n / 10).push(digit_char(n % 10))
    }
}

proof fn lemma_dec_val_nonneg(s: Seq<char>)
    requires
        all_digits(s),
    ensures
        dec_val(s) >= 0,
    decreases s.len(),
{
    if s.len() > 0 {
        assert(all_digits(s.drop_last()));
        lemma_dec_val_nonneg(s.drop_last());
    }
}

proof fn lemma_dec_val_prefix(s: Seq<char>, i: int)
    requires
        all_digits(s),
        0 <= i <= s.len(),
    ensures
        dec_val(s.take(i)) <= dec_val(s),
    decreases s.len() - i,
{
    if i < s.len() {
        assert(s.take(i + 1).drop_last() =~= s.take(i));
        assert(s.take(i + 1).last() == s[i]);
        assert(all_digits(s.take(i)));
        lemma_dec_val_nonneg(s.take(i));
        assert(dec_val(s.take(i + 1)) == dec_val(s.take(i)) * 10 + digit_val(s[i]));
        assert(dec_val(s.take(i)) * 10 >= dec_val(s.take(i))) by (nonlinear_arith)
            requires dec_val(s.take(i)) >= 0;
        lemma_dec_val_prefix(s, i + 1);
    } else {
        assert(s.take(i) =~= s);
    }
}

/// The numeral of `n` consists of digits and reads back as `n`.
pub proof fn lemma_dec_chars_val(n: int)
    requires
        n >= 0,
    ensures
        dec_chars(n).len() >= 1,
        all_digits(dec_chars(n)),
        dec_val(dec_chars(n)) == n,
    decreases n,
{
    if n < 10 {
        let s = dec_chars(n);
        assert(s.len() == 1);
        assert(s[0] == digit_char(n));
        assert(is_digit(digit_char(n)));
        assert(s.drop_last() =~= Seq::<char>::empty());
        assert(dec_val(Seq::<char>::empty()) == 0);
        assert(dec_val(s) == dec_val(s.drop_last()) * 10 + digit_val(s.last()));
        assert(digit_val(digit_char(n)) == n);
    } else {
        assert(0 <= n / 10 < n) by (nonlinear_arith)
            requires n >= 10;
        lemma_dec_chars_val(n / 10);
        let s = dec_chars(n);
        assert(s == dec_chars(n / 10).push(digit_char(n % 10)));
        assert(s.drop_last() =~= dec_chars(n / 10));
        assert(s.last() == digit_char(n % 10));
        assert(0 <= n % 10 < 10);
        assert(is_digit(digit_char(n % 10)));
        assert(digit_val(digit_char(n % 10)) == n % 10);
        assert(dec_val(s) == (n / 10) * 10 + n % 10);
        assert((n / 10) * 10 + n % 10 == n) by (nonlinear_arith);
        assert(forall|i: int| 0 <= i < s.len() ==> is_digit(#[trigger] s[i]));
    }
}

/// Appends the decimal numeral of `n` to `out`.
pub fn push_dec(n: usize, out: &mut Vec<char>)
    ensures
        final(out)@ == old(out)@ + dec_chars(n as int),
    decreases n,
{
    if n >= 10 {
        push_dec(n / 10, out);
    }
    let d: u8 = (n % 10) as u8;
    out.push((48 + d) as char);
    proof {
        if n < 10 {
            assert(old(out)@ + dec_chars(n as int) =~= old(out)@.push(digit_char(n as int)));
        } else {
            assert(old(out)@ + dec_chars(n as int) =~= (old(out)@ + dec_chars(n as int / 10)).push(
                digit_char(n as int % 10)));
        }
    }
}

// ---------------------------------------------------------------------------
// Strings and character vectors
// ---------------------------------------------------------------------------

/// Relies on `String::push`: appends one character to the string.
#[verifier::external_body]
pub(crate) fn push_char(s: &mut String, c: char)
    ensures
        final(s)@ == old(s)@.push(c),
{
    s.push(c);
}

/// Collects the characters of a string into a vector.
pub fn str_chars(s: &str) -> (r: Vec<char>)
    ensures
        r@ == s@,
{
    let n: usize = s.unicode_len();
    let mut r: Vec<char> = Vec::new();
    for i in 0..n
        invariant
            n == s@.len(),
            r@ =~= s@.take(i as int),
    {
        r.push(s.get_char(i));
    }
    proof {
        assert(r@ =~= s@);
    }
    r
}

/// Builds a string from a vector of characters.
pub fn chars_string(v: &Vec<char>) -> (r: String)
    ensures
        r@ == v@,
{
    let mut s = String::new();
    let n: usize = v.len();
    for i in 0..n
        invariant
            n == v@.len(),
            s@ =~= v@.take(i as int),
    {
        push_char(&mut s, v[i]);
    }
    proof {
        assert(s@ =~= v@);
    }
    s
}

// ---------------------------------------------------------------------------
// Index segments: what `usize` parsing accepts
// ---------------------------------------------------------------------------

pub open spec fn digits_val_ok(s: Seq<char>) -> bool {
    s.len() > 0 && all_digits(s) && dec_val(s) <= usize::MAX as int
}

/// Whether a raw segment reads as an array index: an optional leading `+`
/// followed by decimal digits whose value fits in `usize`.
pub open spec fn is_index_chars(s: Seq<char>) -> bool {
    if s.len() > 0 && s[0] == '+' {
        digits_val_ok(s.drop_first())
    } else {
        digits_val_ok(s)
    }
}

pub open spec fn index_chars_val(s: Seq<char>) -> int {
    if s.len() > 0 && s[0] == '+' {
        dec_val(s.drop_first())
    } else {
        dec_val(s)
    }
}

/// Parses a raw segment as an array index, if it reads as one.
pub fn parse_index(v: &Vec<char>, from: usize, to: usize) -> (r: Option<usize>)
    requires
        from <= to <= v@.len(),
    ensures
        (r is Some) == is_index_chars(v@.subrange(from as int, to as int)),
        r matches Some(n) ==> n as int == index_chars_val(v@.subrange(from as int, to as int)),
{
    let ghost s = v@.subrange(from as int, to as int);
    let mut start: usize = from;
    if from < to && v[from] == '+' {
        start = from + 1;
        proof {
            assert(s[0] == v@[from as int]);
        }
    } else {
        proof {
            if s.len() > 0 {
                assert(s[0] == v@[from as int]);
            }
        }
    }
    let ghost digits = v@.subrange(start as int, to as int);
    proof {
        if from < start {
            assert(digits =~= s.drop_first());
        } else {
            assert(digits =~= s);
        }
    }
    proof {
        assert(is_index_chars(s) == digits_val_ok(digits));
        assert(index_chars_val(s) == dec_val(digits));
    }
    if start == to {
        return None;
    }
    let mut acc: usize = 0;
    let mut i: usize = start;
    while i < to
        invariant
            from <= start <= i <= to <= v@.len(),
            s == v@.subrange(from as int, to as int),
            digits == v@.subrange(start as int, to as int),
            is_index_chars(s) == digits_val_ok(digits),
            index_chars_val(s) == dec_val(digits),
            digits.len() > 0,
            all_digits(digits.take(i - start)),
            acc as int == dec_val(digits.take(i - start)),
        decreases to - i,
    {
        let c: char = v[i];
        if c < '0' || c > '9' {
            proof {
                assert(digits[i - start] == v@[i as int]);
                assert(!is_digit(digits[i - start]));
                assert(!all_digits(digits));
                assert(!digits_val_ok(digits));
            }
            return None;
        }
        let d: usize = (c as u8 - 48) as usize;
        proof {
            assert(digits[i - start] == v@[i as int]);
            assert(is_digit(digits[i - start]));
            assert(digit_val(digits[i - start]) == d);
            assert(digits.take(i - start + 1).drop_last() =~= digits.take(i - start));
            assert(digits.take(i - start + 1).last() == digits[i - start]);
        }
        let acc10: usize = match acc.checked_mul(10) {
            Some(acc10) => acc10,
            None => {
                proof {
                    assert(dec_val(digits.take(i - start + 1)) > usize::MAX as int);
                    if all_digits(digits) {
                        lemma_dec_val_prefix(digits, i - start + 1);
                    }
                    assert(!digits_val_ok(digits));
                }
                return None;
            },
        };
        let next: usize = match acc10.checked_add(d) {
            Some(next) => next,
            None => {
                proof {
                    assert(dec_val(digits.take(i - start + 1)) > usize::MAX as int);
                    if all_digits(digits) {
                        lemma_dec_val_prefix(digits, i - start + 1);
                    }
                    assert(!digits_val_ok(digits));
                }
                return None;
            },
        };
        acc = next;
        i = i + 1;
    }
    proof {
        assert(digits.take(to - start) =~= digits);
        assert(digits_val_ok(digits));
    }
    Some(acc)
}

// ---------------------------------------------------------------------------
// Percent-encoding of wire values
// ---------------------------------------------------------------------------

pub open spec fn is_unreserved(c: char) -> bool {
    is_digit(c) || (65 <= c as int <= 90) || (97 <= c as int <= 122) || c == '-' || c == '.'
        || c == '_' || c == '~'
}

pub open spec fn hex_digit_char(d: int) -> char {
    if d < 10 {
        digit_char(d)
    } else {
        ((55 + d) as u8) as char
    }
}

pub open spec fn is_hex_digit(c: char) -> bool {
    is_digit(c) || (65 <= c as int <= 70) || (97 <= c as int <= 102)
}

pub open spec fn hex_val(c: char) -> int {
    if is_digit(c) {
        c as int - 48
    } else if 65 <= c as int <= 70 {
        c as int - 55
    } else {
        c as int - 87
    }
}

/// How one character of a wire value is encoded: unreserved characters
/// stay, a space becomes `+`, other ASCII becomes `%XX`, and characters
/// beyond ASCII pass through unchanged.
pub open spec fn enc_char(c: char) -> Seq<char> {
    if is_unreserved(c) {
        seq![c]
    } else if c == ' ' {
        seq!['+']
    } else if (c as u32) < 128 {
        seq!['%', hex_digit_char((c as u32 / 16) as int), hex_digit_char((c as u32 % 16) as int)]
    } else {
        seq![c]
    }
}

pub open spec fn enc_chars(s: Seq<char>) -> Seq<char>
    decreases s.len(),
{
    if s.len() == 0 {
        Seq::empty()
    } else {
        enc_chars(s.drop_last()) + enc_char(s.last())
    }
}

/// The decoding of a percent-encoded wire value: `+` reads as a space,
/// `%` followed by two hex digits reads as that character, and anything
/// else reads as itself.
pub open spec fn dec_enc_chars(s: Seq<char>) -> Seq<char>
    decreases s.len(),
{
    if s.len() == 0 {
        Seq::empty()
    } else if s[0] == '+' {
        seq![' '] + dec_enc_chars(s.drop_first())
    } else if s[0] == '%' && s.len() >= 3 && is_hex_digit(s[1]) && is_hex_digit(s[2]) {
        seq![(((hex_val(s[1]) * 16 + hex_val(s[2])) as u8) as char)] + dec_enc_chars(s.skip(3))
    } else {
        seq![s[0]] + dec_enc_chars(s.drop_first())
    }
}

/// Percent-encodes one wire value.
pub fn encode_value(s: &str) -> (r: String)
    ensures
        r@ == enc_chars(s@),
{
    let cs = str_chars(s);
    let n: usize = cs.len();
    let mut out: Vec<char> = Vec::new();
    for i in 0..n
        invariant
            n == cs@.len(),
            cs@ == s@,
            out@ == enc_chars(cs@.take(i as int)),
    {
        let c: char = cs[i];
        proof {
            assert(cs@.take(i + 1).drop_last() =~= cs@.take(i as int));
            assert(cs@.take(i + 1).last() == cs@[i as int]);
        }
        if (c >= '0' && c <= '9') || (c >= 'A' && c <= 'Z') || (c >= 'a' && c <= 'z') || c == '-'
            || c == '.' || c == '_' || c == '~' {
            out.push(c);
            proof {
                assert(out@ =~= enc_chars(cs@.take(i + 1)));
            }
        } else if c == ' ' {
            out.push('+');
            proof {
                assert(out@ =~= enc_chars(cs@.take(i + 1)));
            }
        } else if (c as u32) < 128 {
            let u: u32 = c as u32;
            let hi: u8 = (u / 16) as u8;
            let lo: u8 = (u % 16) as u8;
            out.push('%');
            out.push(if hi < 10 { (48 + hi) as char } else { (55 + hi) as char });
            out.push(if lo < 10 { (48 + lo) as char } else { (55 + lo) as char });
            proof {
                assert(hi as int == (c as u32 / 16) as int);
                assert(lo as int == (c as u32 % 16) as int);
                assert(out@ =~= enc_chars(cs@.take(i + 1)));
            }
        } else {
            out.push(c);
            proof {
                assert(out@ =~= enc_chars(cs@.take(i + 1)));
            }
        }
    }
    proof {
        assert(cs@.take(n as int) =~= cs@);
    }
    chars_string(&out)
}

fn hex_digit_of(c: char) -> (r: Option<u8>)
    ensures
        (r is Some) == is_hex_digit(c),
        r matches Some(d) ==> d as int == hex_val(c),
{
    if c >= '0' && c <= '9' {
        Some(c as u8 - 48)
    } else if c >= 'A' && c <= 'F' {
        Some(c as u8 - 55)
    } else if c >= 'a' && c <= 'f' {
        Some(c as u8 - 87)
    } else {
        None
    }
}

/// Decodes the percent-encoded wire value held in `v[from..to]`.
pub fn decode_value(v: &Vec<char>, from: usize, to: usize) -> (r: String)
    requires
        from <= to <= v@.len(),
    ensures
        r@ == dec_enc_chars(v@.subrange(from as int, to as int)),
{
    let mut out: Vec<char> = Vec::new();
    let mut i: usize = from;
    while i < to
        invariant
            from <= i <= to <= v@.len(),
            dec_enc_chars(v@.subrange(from as int, to as int)) == out@ + dec_enc_chars(
                v@.subrange(i as int, to as int)),
        decreases to - i,
    {
        let ghost rest = v@.subrange(i as int, to as int);
        let c: char = v[i];
        proof {
            assert(rest[0] == v@[i as int]);
            assert(rest.drop_first() =~= v@.subrange(i + 1, to as int));
        }
        if c == '+' {
            let ghost prev = out@;
            out.push(' ');
            proof {
                assert(out@ + dec_enc_chars(v@.subrange(i + 1, to as int)) =~= prev
                    + dec_enc_chars(rest));
            }
            i = i + 1;
        } else if c == '%' && to - i >= 3 {
            let d1 = hex_digit_of(v[i + 1]);
            let d2 = hex_digit_of(v[i + 2]);
            proof {
                assert(rest[1] == v@[i + 1]);
                assert(rest[2] == v@[i + 2]);
            }
            match (d1, d2) {
                (Some(h1), Some(h2)) => {
                    let ghost prev = out@;
                    out.push((h1 * 16 + h2) as char);
                    proof {
                        assert(rest.skip(3) =~= v@.subrange(i + 3, to as int));
                        assert(out@ + dec_enc_chars(v@.subrange(i + 3, to as int)) =~= prev
                            + dec_enc_chars(rest));
                    }
                    i = i + 3;
                },
                _ => {
                    let ghost prev = out@;
                    out.push(c);
                    proof {
                        assert(out@ + dec_enc_chars(v@.subrange(i + 1, to as int)) =~= prev
                            + dec_enc_chars(rest));
                    }
                    i = i + 1;
                },
            }
        } else {
            let ghost prev = out@;
            out.push(c);
            proof {
                assert(out@ + dec_enc_chars(v@.subrange(i + 1, to as int)) =~= prev
                    + dec_enc_chars(rest));
            }
            i = i + 1;
        }
    }
    proof {
        assert(v@.subrange(to as int, to as int) =~= Seq::<char>::empty());
    }
    chars_string(&out)
}

} // verus!
