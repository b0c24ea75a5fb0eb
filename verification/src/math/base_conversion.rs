//! Conversion of integers written in one base (2 to 36) into another, for
//! numbers of any length.
use vstd::prelude::*;
use vstd::std_specs::iter::IteratorSpec;

verus! {

broadcast use vstd::string::group_string_axioms;

/// Whether `c` has the Unicode `White_Space` property, which is what
/// `char::is_whitespace` answers: U+0009 to U+000D, U+0020, U+0085, U+00A0,
/// U+1680, U+2000 to U+200A, U+2028, U+2029, U+202F, U+205F and U+3000.
/// Opaque to keep proofs about texts small; `reveal` it to use the list.
#[verifier::opaque]
pub open spec fn unicode_white_space(c: char) -> bool {
    let u = c as u32;
    ||| 0x09 <= u <= 0x0d
    ||| u == 0x20
    ||| u == 0x85
    ||| u == 0xa0
    ||| u == 0x1680
    ||| 0x2000 <= u <= 0x200a
    ||| u == 0x2028
    ||| u == 0x2029
    ||| u == 0x202f
    ||| u == 0x205f
    ||| u == 0x3000
}

/// Whether `c` is white space in the sense of Unicode.
fn is_whitespace(c: char) -> (r: bool)
    ensures
        r == unicode_white_space(c),
{
    reveal(unicode_white_space);
    let u = c as u32;
    (0x09 <= u && u <= 0x0d) || u == 0x20 || u == 0x85 || u == 0xa0 || u == 0x1680 || (0x2000
        <= u && u <= 0x200a) || u == 0x2028 || u == 0x2029 || u == 0x202f || u == 0x205f || u
        == 0x3000
}

/// Collects characters into a `String` with `String::from_iter`, which
/// appends them in order.
#[verifier::external_body]
pub(crate) fn string_from_chars(chars: Vec<char>) -> (s: String)
    ensures
        s@ == chars@,
{
    String::from_iter(chars)
}

/// `s` without its leading white space.
pub open spec fn trim_start(s: Seq<char>) -> Seq<char>
    decreases s.len(),
{
    if s.len() > 0 && unicode_white_space(s[0]) {
        trim_start(s.drop_first())
    } else {
        s
    }
}

/// `s` without its trailing white space.
pub open spec fn trim_end(s: Seq<char>) -> Seq<char>
    decreases s.len(),
{
    if s.len() > 0 && unicode_white_space(s.last()) {
        trim_end(s.drop_last())
    } else {
        s
    }
}

/// `s` without leading and trailing white space, as `str::trim` gives it.
pub open spec fn trimmed(s: Seq<char>) -> Seq<char> {
    trim_end(trim_start(s))
}

/// The value of `c` as a digit: `0`-`9`, then `a`-`z` or `A`-`Z` for 10 to
/// 35, and 36 for any other character.
pub open spec fn digit_of(c: char) -> u32 {
    if '0' <= c <= '9' {
        (c as int - '0' as int) as u32
    } else if 'a' <= c <= 'z' {
        (c as int - 'a' as int + 10) as u32
    } else if 'A' <= c <= 'Z' {
        (c as int - 'A' as int + 10) as u32
    } else {
        36
    }
}

/// The value of the digits `ds`, most significant first, in `base`.
pub open spec fn digits_value(ds: Seq<u32>, base: int) -> int
    decreases ds.len(),
{
    if ds.len() == 0 {
        0
    } else {
        digits_value(ds.drop_last(), base) * base + ds.last()
    }
}

/// The digits of `v` in `base`, least significant first, with no leading
/// zero (none at all for `0`).
pub open spec fn low_digits(v: nat, base: nat) -> Seq<u32>
    decreases v,
{
    if v == 0 || base < 2 {
        seq![]
    } else {
        proof {
            vstd::arithmetic::div_mod::lemma_div_decreases(v as int, base as int);
        }
        seq![(v % base) as u32] + low_digits(v / base, base)
    }
}

/// The character that writes the digit `d`: `0`-`9`, then `a`-`z`.
pub open spec fn digit_char(d: u32) -> char {
    if d < 10 {
        (d + '0' as int) as char
    } else {
        (d - 10 + 'a' as int) as char
    }
}

/// `t` without a leading `-`.
pub open spec fn unsigned_part(t: Seq<char>) -> Seq<char> {
    if t.len() > 0 && t[0] == '-' {
        t.drop_first()
    } else {
        t
    }
}

/// What converting the trimmed text `t` from base `n` to base `m` yields:
/// `t` is an optional `-` and digits of base `n`; the result writes the same
/// value in base `m`, with `-` kept unless the value is zero.
pub open spec fn convert_trimmed(t: Seq<char>, n: u32, m: u32) -> Result<Seq<char>, Seq<char>> {
    if n < 2 || n > 36 || m < 2 || m > 36 {
        Err("Bases must be between 2 and 36"@)
    } else if t.len() == 0 {
        Err("Empty input"@)
    } else {
        let negative = t[0] == '-';
        let body = unsigned_part(t);
        if exists|i: int| 0 <= i < body.len() && digit_of(#[trigger] body[i]) >= n {
            Err("Invalid character for base n"@)
        } else {
            let v = digits_value(body.map_values(|c: char| digit_of(c)), n as int);
            if v == 0 {
                Ok("0"@)
            } else {
                let written = low_digits(v as nat, m as nat).reverse().map_values(
                    |d: u32| digit_char(d),
                );
                Ok(
                    if negative {
                        seq!['-'] + written
                    } else {
                        written
                    },
                )
            }
        }
    }
}

/// What converting the text `s` from base `n` to base `m` yields: the text
/// without surrounding white space, converted.
pub open spec fn conversion(s: Seq<char>, n: u32, m: u32) -> Result<Seq<char>, Seq<char>> {
    convert_trimmed(trimmed(s), n, m)
}

proof fn lemma_value_nonnegative(ds: Seq<u32>, base: int)
    requires
        base >= 0,
    ensures
        digits_value(ds, base) >= 0,
    decreases ds.len(),
{
    if ds.len() > 0 {
        lemma_value_nonnegative(ds.drop_last(), base);
        let v = digits_value(ds.drop_last(), base);
        assert(v * base >= 0) by (nonlinear_arith)
            requires
                v >= 0,
                base >= 0,
        ;
    }
}

proof fn lemma_digit_char(d: u32)
    requires
        d < 36,
    ensures
        digit_of(digit_char(d)) == d,
        digit_char(d) != '-',
{
}

/// The lower-case form of an ASCII letter; any other character unchanged.
pub open spec fn ascii_lower(c: char) -> char {
    if 'A' <= c <= 'Z' {
        ((c as int) + 32) as char
    } else {
        c
    }
}

/// `s` with its ASCII letters in lower case.
pub open spec fn lower_text(s: Seq<char>) -> Seq<char> {
    s.map_values(|c: char| ascii_lower(c))
}

/// The values of digit characters: `0`-`9` are worth 0 to 9, the letters
/// 10 to 35 in alphabetical order with the same value in either case, and
/// any other character is a digit in no base.
pub proof fn lemma_digit_values(c: char)
    ensures
        '0' <= c <= '9' ==> digit_of(c) == c as int - '0' as int,
        'a' <= c <= 'z' ==> digit_of(c) == c as int - 'a' as int + 10,
        'A' <= c <= 'Z' ==> digit_of(c) == c as int - 'A' as int + 10,
        digit_of(ascii_lower(c)) == digit_of(c),
        !('0' <= c <= '9' || 'a' <= c <= 'z' || 'A' <= c <= 'Z') ==> digit_of(c) >= 36,
{
}

/// Every digit below 36 that `digit_char` writes reads back as itself.
pub proof fn lemma_digit_chars_read_back(d: u32)
    requires
        d < 36,
    ensures
        digit_of(digit_char(d)) == d,
        '0' <= digit_char(d) <= '9' || 'a' <= digit_char(d) <= 'z',
{
}

proof fn lemma_lower_keeps_white_space(c: char)
    ensures
        unicode_white_space(ascii_lower(c)) == unicode_white_space(c),
        (ascii_lower(c) == '-') == (c == '-'),
{
    reveal(unicode_white_space);
}

proof fn lemma_trim_start_lower(s: Seq<char>)
    ensures
        trim_start(lower_text(s)) == lower_text(trim_start(s)),
    decreases s.len(),
{
    if s.len() > 0 {
        lemma_lower_keeps_white_space(s[0]);
        assert(lower_text(s)[0] == ascii_lower(s[0]));
        assert(lower_text(s).drop_first() =~= lower_text(s.drop_first()));
        lemma_trim_start_lower(s.drop_first());
    }
}

proof fn lemma_trim_end_lower(s: Seq<char>)
    ensures
        trim_end(lower_text(s)) == lower_text(trim_end(s)),
    decreases s.len(),
{
    if s.len() > 0 {
        lemma_lower_keeps_white_space(s.last());
        assert(lower_text(s).last() == ascii_lower(s.last()));
        assert(lower_text(s).drop_last() =~= lower_text(s.drop_last()));
        lemma_trim_end_lower(s.drop_last());
    }
}

/// Conversion does not depend on the case of the letters in the text.
pub proof fn lemma_conversion_ignores_case(s: Seq<char>, n: u32, m: u32)
    ensures
        conversion(lower_text(s), n, m) == conversion(s, n, m),
{
    lemma_trim_start_lower(s);
    lemma_trim_end_lower(trim_start(s));
    let t = trimmed(s);
    let lt = lower_text(t);
    assert(trimmed(lower_text(s)) == lt);
    if t.len() > 0 {
        lemma_lower_keeps_white_space(t[0]);
        assert(lt[0] == ascii_lower(t[0]));
        let body = unsigned_part(t);
        let lbody = unsigned_part(lt);
        assert(lbody =~= lower_text(body)) by {
            if t[0] == '-' {
                assert(lt.drop_first() =~= lower_text(t.drop_first()));
            }
        }
        assert forall|i: int| 0 <= i < body.len() implies digit_of(#[trigger] lbody[i]) == digit_of(body[i]) by {
            lemma_digit_values(body[i]);
        }
        assert(lbody.map_values(|c: char| digit_of(c)) =~= body.map_values(|c: char| digit_of(c)));
        if exists|i: int| 0 <= i < body.len() && digit_of(#[trigger] body[i]) >= n {
            let i = choose|i: int| 0 <= i < body.len() && digit_of(#[trigger] body[i]) >= n;
            assert(digit_of(lbody[i]) >= n);
        }
        if exists|i: int| 0 <= i < lbody.len() && digit_of(#[trigger] lbody[i]) >= n {
            let i = choose|i: int| 0 <= i < lbody.len() && digit_of(#[trigger] lbody[i]) >= n;
            assert(digit_of(body[i]) >= n);
        }
    }
}

proof fn lemma_low_digits_bound(v: nat, base: nat)
    requires
        2 <= base <= 36,
    ensures
        forall|i: int| 0 <= i < low_digits(v, base).len() ==> #[trigger] low_digits(v, base)[i] < base,
    decreases v,
{
    if v > 0 {
        vstd::arithmetic::div_mod::lemma_div_decreases(v as int, base as int);
        lemma_low_digits_bound(v / base, base);
        vstd::arithmetic::div_mod::lemma_mod_pos_bound(v as int, base as int);
        let rest = low_digits(v / base, base);
        assert forall|i: int| 0 <= i < low_digits(v, base).len() implies #[trigger] low_digits(
            v,
            base,
        )[i] < base by {
            if i > 0 {
                assert(low_digits(v, base)[i] == rest[i - 1]);
            }
        }
    }
}

proof fn lemma_low_digits_value(v: nat, base: nat)
    requires
        2 <= base <= 36,
    ensures
        digits_value(low_digits(v, base).reverse(), base as int) == v,
    decreases v,
{
    if v == 0 {
        assert(low_digits(0, base).reverse() =~= Seq::<u32>::empty());
    } else {
        vstd::arithmetic::div_mod::lemma_div_decreases(v as int, base as int);
        lemma_low_digits_value(v / base, base);
        vstd::arithmetic::div_mod::lemma_mod_pos_bound(v as int, base as int);
        vstd::arithmetic::div_mod::lemma_fundamental_div_mod(v as int, base as int);
        let rest = low_digits(v / base, base);
        let digit = (v % base) as u32;
        assert(low_digits(v, base).reverse() =~= rest.reverse().push(digit));
        assert(rest.reverse().push(digit).drop_last() =~= rest.reverse());
        assert(digits_value(rest.reverse().push(digit), base as int) == digits_value(
            rest.reverse(),
            base as int,
        ) * base + digit);
    }
}

/// Writing the result back in the first base gives the canonical form
/// of the input: converting a trimmed text from base `n` to base `m` and the
/// result back to base `n` is converting it from base `n` to base `n`.
pub proof fn lemma_round_trip(t: Seq<char>, n: u32, m: u32, out: Seq<char>)
    requires
        convert_trimmed(t, n, m) == Ok::<Seq<char>, Seq<char>>(out),
    ensures
        convert_trimmed(out, m, n) == convert_trimmed(t, n, n),
{
    reveal_strlit("0");
    assert(2 <= n <= 36 && 2 <= m <= 36 && t.len() > 0);
    let negative = t[0] == '-';
    let body = unsigned_part(t);
    let v = digits_value(body.map_values(|c: char| digit_of(c)), n as int);
    lemma_value_nonnegative(body.map_values(|c: char| digit_of(c)), n as int);
    if v == 0 {
        assert(out == seq!['0']);
        assert(unsigned_part(out) == out);
        assert(out.map_values(|c: char| digit_of(c)) =~= seq![0u32]);
        assert(seq![0u32].drop_last() =~= Seq::<u32>::empty());
        assert(digits_value(Seq::<u32>::empty(), m as int) == 0);
        assert(digits_value(seq![0u32], m as int) == 0 * m + 0);
        assert(digits_value(out.map_values(|c: char| digit_of(c)), m as int) == 0);
    } else {
        let low = low_digits(v as nat, m as nat);
        let rev = low.reverse();
        let written = rev.map_values(|d: u32| digit_char(d));
        lemma_low_digits_bound(v as nat, m as nat);
        lemma_low_digits_value(v as nat, m as nat);
        assert(low =~= seq![((v as nat) % (m as nat)) as u32] + low_digits(
            (v as nat) / (m as nat),
            m as nat,
        ));
        assert(low.len() > 0);
        assert forall|i: int| 0 <= i < written.len() implies digit_of(#[trigger] written[i])
            == rev[i] && written[i] != '-' by {
            assert(rev[i] == low[low.len() - 1 - i]);
            lemma_digit_char(rev[i]);
        }
        assert(unsigned_part(out) == written) by {
            if negative {
                assert(out == seq!['-'] + written);
                assert(out.drop_first() =~= written);
            } else {
                assert(out == written);
                assert(out[0] != '-');
            }
        }
        assert(written.map_values(|c: char| digit_of(c)) =~= rev);
        assert((out[0] == '-') == negative) by {
            if !negative {
                assert(out[0] == written[0]);
            }
        }
    }
}

/// The characters of `s`, in order.
pub(crate) fn chars_of(s: &str) -> (v: Vec<char>)
    ensures
        v@ == s@,
{
    let mut it = s.chars();
    let mut v: Vec<char> = Vec::new();
    loop
        invariant
            v@ + it.remaining() == s@,
            it.decrease() is Some,
        ensures
            v@ == s@,
        decreases it.decrease().unwrap(),
    {
        match it.next() {
            Some(c) => {
                v.push(c);
            },
            None => {
                assert(v@ == s@);
                break ;
            },
        }
    }
    v
}

/// The value of `c` as a digit of base `radix`, as `char::to_digit` gives it.
fn to_digit(c: char, radix: u32) -> (r: Option<u32>)
    requires
        2 <= radix <= 36,
    ensures
        r matches Some(d) ==> d == digit_of(c) && d < radix,
        r is None ==> digit_of(c) >= radix,
{
    let code = c as u32;
    let value: u32 = if 48 <= code && code <= 57 {
        code - 48
    } else if 97 <= code && code <= 122 {
        code - 87
    } else if 65 <= code && code <= 90 {
        code - 55
    } else {
        36
    };
    if value < radix {
        Some(value)
    } else {
        None
    }
}

/// The character that writes the digit `d`.
fn digit_to_char(d: u32) -> (c: char)
    requires
        d < 36,
    ensures
        c == digit_char(d),
{
    if d < 10 {
        ((d + 48) as u8) as char
    } else {
        ((d + 87) as u8) as char
    }
}

proof fn lemma_value_leading_zero(t: Seq<u32>, base: int)
    ensures
        digits_value(seq![0u32] + t, base) == digits_value(t, base),
    decreases t.len(),
{
    assert(digits_value(Seq::<u32>::empty(), base) == 0);
    if t.len() == 0 {
        assert(seq![0u32] + t =~= seq![0u32]);
        assert(seq![0u32].drop_last() =~= Seq::<u32>::empty());
    } else {
        lemma_value_leading_zero(t.drop_last(), base);
        assert((seq![0u32] + t).drop_last() =~= seq![0u32] + t.drop_last());
        assert((seq![0u32] + t).last() == t.last());
    }
}

proof fn lemma_value_all_zero(ds: Seq<u32>, base: int)
    requires
        forall|j: int| 0 <= j < ds.len() ==> ds[j] == 0,
    ensures
        digits_value(ds, base) == 0,
    decreases ds.len(),
{
    if ds.len() > 0 {
        lemma_value_all_zero(ds.drop_last(), base);
    }
}

proof fn lemma_value_at_least_first(ds: Seq<u32>, base: int)
    requires
        ds.len() > 0,
        base >= 1,
    ensures
        digits_value(ds, base) >= ds[0],
    decreases ds.len(),
{
    assert(digits_value(Seq::<u32>::empty(), base) == 0);
    if ds.len() > 1 {
        lemma_value_at_least_first(ds.drop_last(), base);
        assert(ds.drop_last()[0] == ds[0]);
        let v = digits_value(ds.drop_last(), base);
        assert(v * base >= v) by (nonlinear_arith)
            requires
                v >= 0,
                base >= 1,
        ;
    } else {
        assert(ds.drop_last() =~= Seq::<u32>::empty());
    }
}

/// One step of schoolbook division of a base-`n` numeral by `m`.
proof fn lemma_long_division_step(
    prefix: Seq<u32>,
    next: Seq<u32>,
    rem: int,
    d: u32,
    n: int,
    m: int,
    div: int,
    new_rem: int,
)
    requires
        digits_value(prefix, n) == digits_value(next, n) * m + rem,
        rem * n + d == div * m + new_rem,
    ensures
        digits_value(prefix.push(d), n) == (digits_value(next, n) * n + div) * m + new_rem,
{
    assert(prefix.push(d).drop_last() =~= prefix);
    let q = digits_value(next, n);
    assert((q * m + rem) * n + d == (q * n + div) * m + new_rem) by (nonlinear_arith)
        requires
            rem * n + d == div * m + new_rem,
    ;
}

/// Converts the text `s`, an integer written in base `n` with an optional
/// leading `-`, into base `m`. Surrounding white space is ignored, and
/// leading zeros are dropped.
pub fn convert_base_text(s: &str, n: u32, m: u32) -> (r: Result<String, &'static str>)
    ensures
        match r {
            Ok(out) => conversion(s@, n, m) == Ok::<Seq<char>, Seq<char>>(out@),
            Err(e) => conversion(s@, n, m) == Err::<Seq<char>, Seq<char>>(e@),
        },
{
    let chars = chars_of(s);
    let len = chars.len();
    let mut start: usize = 0;
    assert(chars@.skip(0) =~= chars@);
    while start < len && is_whitespace(chars[start])
        invariant
            start <= len == chars@.len(),
            trim_start(chars@) == trim_start(chars@.skip(start as int)),
        decreases len - start,
    {
        assert(chars@.skip(start as int).drop_first() =~= chars@.skip(start + 1));
        start += 1;
    }
    assert(trim_start(chars@) == chars@.subrange(start as int, len as int));
    let mut end = len;
    while end > start && is_whitespace(chars[end - 1])
        invariant
            start <= end <= len == chars@.len(),
            trim_end(chars@.subrange(start as int, len as int)) == trim_end(
                chars@.subrange(start as int, end as int),
            ),
        decreases end - start,
    {
        assert(chars@.subrange(start as int, end as int).drop_last() =~= chars@.subrange(
            start as int,
            end - 1,
        ));
        end -= 1;
    }
    let ghost t = chars@.subrange(start as int, end as int);
    assert(trimmed(s@) == t);
    if n < 2 || n > 36 || m < 2 || m > 36 {
        return Err("Bases must be between 2 and 36");
    }
    if start == end {
        return Err("Empty input");
    }
    let negative = chars[start] == '-';
    let body_start = if negative {
        start + 1
    } else {
        start
    };
    let ghost body = chars@.subrange(body_start as int, end as int);
    assert(body == if negative {
        t.drop_first()
    } else {
        t
    });
    let mut i = body_start;
    while i < end && chars[i] == '0' && end - i > 1
        invariant
            body_start <= i <= end <= chars@.len(),
            forall|k: int| body_start <= k < i ==> chars@[k] == '0',
            digits_value(body.map_values(|c: char| digit_of(c)), n as int) == digits_value(
                chars@.subrange(i as int, end as int).map_values(|c: char| digit_of(c)),
                n as int,
            ),
        decreases end - i,
    {
        proof {
            let rest = chars@.subrange(i + 1, end as int).map_values(|c: char| digit_of(c));
            assert(chars@.subrange(i as int, end as int).map_values(|c: char| digit_of(c))
                =~= seq![0u32] + rest);
            lemma_value_leading_zero(rest, n as int);
        }
        i += 1;
    }
    let mut digits: Vec<u32> = Vec::new();
    let mut k = i;
    while k < end
        invariant
            2 <= n <= 36,
            2 <= m <= 36,
            t.len() > 0,
            trimmed(s@) == t,
            negative == (t[0] == '-'),
            body == (if negative {
                t.drop_first()
            } else {
                t
            }),
            i <= k <= end <= chars@.len(),
            body == chars@.subrange(body_start as int, end as int),
            body_start <= i,
            forall|j: int| body_start <= j < i ==> chars@[j] == '0',
            digits@ == chars@.subrange(i as int, k as int).map_values(|c: char| digit_of(c)),
            forall|j: int| 0 <= j < digits@.len() ==> #[trigger] digits@[j] < n,
        decreases end - k,
    {
        match to_digit(chars[k], n) {
            Some(d) => {
                digits.push(d);
            },
            None => {
                proof {
                    assert(body[k - body_start] == chars@[k as int]);
                    assert(unsigned_part(t) == body);
                }
                return Err("Invalid character for base n");
            },
        }
        assert(digits@ =~= chars@.subrange(i as int, k + 1).map_values(|c: char| digit_of(c)));
        k += 1;
    }
    proof {
        assert(digits@ =~= chars@.subrange(i as int, end as int).map_values(|c: char| digit_of(c)));
        assert forall|j: int| 0 <= j < body.len() implies digit_of(#[trigger] body[j]) < n by {
            if body_start + j < i {
                assert(body[j] == '0');
            } else {
                assert(body[j] == chars@[body_start + j]);
                assert(digits@[body_start + j - i] == digit_of(body[j]));
            }
        }
    }
    let ghost total = digits_value(digits@, n as int);
    let mut all_zero = true;
    let mut z: usize = 0;
    while z < digits.len()
        invariant
            z <= digits@.len(),
            all_zero <==> forall|j: int| 0 <= j < z ==> digits@[j] == 0,
        decreases digits@.len() - z,
    {
        if digits[z] != 0 {
            all_zero = false;
        }
        z += 1;
    }
    if digits.len() == 0 || all_zero {
        proof {
            lemma_value_all_zero(digits@, n as int);
        }
        return Ok("0".to_string());
    }
    proof {
        if digits@[0] == 0 {
            assert(chars@[i as int] == '0');
            assert(digits@.len() == 1);
        }
        lemma_value_at_least_first(digits@, n as int);
    }
    let mut low: Vec<char> = Vec::new();
    let ghost mut low_values: Seq<u32> = Seq::empty();
    while digits.len() > 0
        invariant
            2 <= n <= 36,
            2 <= m <= 36,
            total > 0,
            forall|j: int| 0 <= j < digits@.len() ==> #[trigger] digits@[j] < n,
            digits@.len() > 0 ==> digits@[0] != 0,
            digits@.len() == 0 ==> digits_value(digits@, n as int) == 0,
            digits_value(digits@, n as int) >= 0,
            low@ == low_values.map_values(|d: u32| digit_char(d)),
            low_values + low_digits(digits_value(digits@, n as int) as nat, m as nat) == low_digits(
                total as nat,
                m as nat,
            ),
        decreases digits_value(digits@, n as int),
    {
        let ghost value = digits_value(digits@, n as int);
        proof {
            lemma_value_at_least_first(digits@, n as int);
        }
        let mut rem: u32 = 0;
        let mut next: Vec<u32> = Vec::new();
        let mut j: usize = 0;
        while j < digits.len()
            invariant
                2 <= n <= 36,
                2 <= m <= 36,
                j <= digits@.len(),
                forall|q: int| 0 <= q < digits@.len() ==> #[trigger] digits@[q] < n,
                rem < m,
                digits_value(digits@.take(j as int), n as int) == digits_value(next@, n as int)
                    * m + rem,
                next@.len() > 0 ==> next@[0] != 0,
                forall|q: int| 0 <= q < next@.len() ==> #[trigger] next@[q] < n,
                digits_value(next@, n as int) >= 0,
            decreases digits@.len() - j,
        {
            let d = digits[j];
            assert(rem * n + d < m * n && m * n <= 1296) by (nonlinear_arith)
                requires
                    rem < m,
                    d < n,
                    n <= 36,
                    m <= 36,
            ;
            let cur = rem * n + d;
            let div = cur / m;
            let new_rem = cur % m;
            proof {
                vstd::arithmetic::div_mod::lemma_fundamental_div_mod(cur as int, m as int);
                assert(div < n) by (nonlinear_arith)
                    requires
                        div == cur / m,
                        cur < m * n,
                        m >= 2,
                ;
                assert(digits@.take(j + 1) =~= digits@.take(j as int).push(d));
                lemma_long_division_step(
                    digits@.take(j as int),
                    next@,
                    rem as int,
                    d,
                    n as int,
                    m as int,
                    div as int,
                    new_rem as int,
                );
            }
            if next.len() > 0 || div > 0 {
                proof {
                    assert(next@.push(div).drop_last() =~= next@);
                }
                next.push(div);
            } else {
                proof {
                    assert(digits_value(next@, n as int) == 0);
                }
            }
            rem = new_rem;
            j += 1;
        }
        proof {
            assert(digits@.take(digits@.len() as int) =~= digits@);
            let q = digits_value(next@, n as int);
            assert(value == q * m + rem);
            vstd::arithmetic::div_mod::lemma_fundamental_div_mod_converse(
                value,
                m as int,
                q,
                rem as int,
            );
            assert(low_digits(value as nat, m as nat) =~= seq![rem] + low_digits(
                q as nat,
                m as nat,
            ));
            assert(q < value) by (nonlinear_arith)
                requires
                    value == q * m + rem,
                    value > 0,
                    q >= 0,
                    m >= 2,
                    rem >= 0,
            ;
            if next@.len() > 0 {
                lemma_value_at_least_first(next@, n as int);
            }
            low_values = low_values.push(rem);
            assert(low_values.map_values(|d: u32| digit_char(d)) =~= low@.push(digit_char(rem)));
        }
        low.push(digit_to_char(rem));
        digits = next;
    }
    let mut out: Vec<char> = Vec::new();
    if negative {
        out.push('-');
    }
    let ghost prefix = out@;
    let mut idx = low.len();
    while idx > 0
        invariant
            idx <= low@.len(),
            out@ == prefix + low@.subrange(idx as int, low@.len() as int).reverse(),
        decreases idx,
    {
        idx -= 1;
        proof {
            assert(low@.subrange(idx as int, low@.len() as int).reverse() =~= low@.subrange(
                idx + 1,
                low@.len() as int,
            ).reverse().push(low@[idx as int]));
        }
        out.push(low[idx]);
    }
    proof {
        assert(low_digits(0, m as nat) =~= Seq::<u32>::empty());
        assert(low_values =~= low_digits(total as nat, m as nat));
        assert(low@.subrange(0, low@.len() as int) =~= low@);
        assert(low@.reverse() =~= low_values.reverse().map_values(|d: u32| digit_char(d)));
    }
    Ok(string_from_chars(out))
}

/// Converts `num`, written by its `Display` form as an integer in base `n`
/// (2 to 36), into base `m`.
///
/// Returns an error when a base is out of range, when the text is empty,
/// or when it holds a character that is not a digit of base `n`.
pub fn convert_base<T: std::fmt::Display>(num: T, n: u32, m: u32) -> (r: Result<String, &'static str>)
    ensures
        exists|text: String|
            {
                &&& #[trigger] vstd::string::to_string_from_display_ensures::<T>(&num, text)
                &&& match r {
                    Ok(out) => conversion(text@, n, m) == Ok::<Seq<char>, Seq<char>>(out@),
                    Err(e) => conversion(text@, n, m) == Err::<Seq<char>, Seq<char>>(e@),
                }
            },
{
    let text = num.to_string();
    let r = convert_base_text(text.as_str(), n, m);
    assert(vstd::string::to_string_from_display_ensures::<T>(&num, text));
    r
}

} // verus!
