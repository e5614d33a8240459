//! Small operations on text: trimming, replacing characters, and reading and
//! writing unsigned decimal numbers.
use vstd::prelude::*;

verus! {

/// `String::push` appends one character.
pub assume_specification[ String::push ](s: &mut String, ch: char)
    ensures
        final(s)@ == old(s)@.push(ch),
;

/// Unicode `White_Space`, the set that `char::is_whitespace` tests.
pub open spec fn is_space(c: char) -> bool {
    ||| ('\u{9}' <= c && c <= '\u{d}')
    ||| c == ' '
    ||| c == '\u{85}'
    ||| c == '\u{a0}'
    ||| c == '\u{1680}'
    ||| ('\u{2000}' <= c && c <= '\u{200a}')
    ||| c == '\u{2028}'
    ||| c == '\u{2029}'
    ||| c == '\u{202f}'
    ||| c == '\u{205f}'
    ||| c == '\u{3000}'
}

/// `s` without its leading white space.
pub open spec fn trim_start(s: Seq<char>) -> Seq<char>
    decreases s.len(),
{
    if s.len() > 0 && is_space(s[0]) {
        trim_start(s.drop_first())
    } else {
        s
    }
}

/// `s` without its trailing white space.
pub open spec fn trim_end(s: Seq<char>) -> Seq<char>
    decreases s.len(),
{
    if s.len() > 0 && is_space(s.last()) {
        trim_end(s.drop_last())
    } else {
        s
    }
}

/// `s` without leading and trailing white space (`str::trim`).
pub open spec fn trimmed(s: Seq<char>) -> Seq<char> {
    trim_end(trim_start(s))
}

/// `s` with every `c` replaced by `rep` (`str::replace` with a one-character
/// pattern).
pub open spec fn replace_char(s: Seq<char>, c: char, rep: Seq<char>) -> Seq<char>
    decreases s.len(),
{
    if s.len() == 0 {
        Seq::empty()
    } else {
        replace_char(s.drop_last(), c, rep) + if s.last() == c {
            rep
        } else {
            seq![s.last()]
        }
    }
}

/// The part of `s` after its last `sep`, all of `s` when there is none
/// (the last item of `str::split(sep)`).
pub open spec fn after_last(s: Seq<char>, sep: char) -> Seq<char>
    decreases s.len(),
{
    if s.len() == 0 {
        Seq::empty()
    } else if s.last() == sep {
        Seq::empty()
    } else {
        after_last(s.drop_last(), sep).push(s.last())
    }
}

pub open spec fn is_digit(c: char) -> bool {
    '0' <= c && c <= '9'
}

pub open spec fn digit_value(c: char) -> nat {
    (c as int - '0' as int) as nat
}

pub open spec fn digit_char(d: nat) -> char {
    ((d + 48) as u8) as char
}

proof fn lemma_digit_char(d: nat)
    requires
        d < 10,
    ensures
        is_digit(digit_char(d)),
        digit_value(digit_char(d)) == d,
{
    let b: u8 = (d + 48) as u8;
    assert(b as int == d + 48);
    assert((b as char) as int == b as int);
}

pub open spec fn all_digits(s: Seq<char>) -> bool {
    forall|i: int| 0 <= i < s.len() ==> is_digit(#[trigger] s[i])
}

/// The number that the decimal digits `s` stand for.
pub open spec fn digits_value(s: Seq<char>) -> nat
    decreases s.len(),
{
    if s.len() == 0 {
        0
    } else {
        digits_value(s.drop_last()) * 10 + digit_value(s.last())
    }
}

/// What `str::parse` gives for an unsigned integer type whose largest value
/// is `max`: an optional `+`, then at least one ASCII digit and nothing
/// else, for a value no larger than `max`.
pub open spec fn parse_unsigned(s: Seq<char>, max: nat) -> Option<nat> {
    let digits = unsigned_digits(s);
    if digits.len() == 0 || !all_digits(digits) || digits_value(digits) > max {
        None
    } else {
        Some(digits_value(digits))
    }
}

/// `s` without the one `+` that may lead it.
pub open spec fn unsigned_digits(s: Seq<char>) -> Seq<char> {
    if s.len() > 0 && s[0] == '+' {
        s.drop_first()
    } else {
        s
    }
}

/// The decimal digits of `n`, without leading zeros.
pub open spec fn decimal(n: nat) -> Seq<char>
    decreases n,
{
    if n < 10 {
        seq![digit_char(n)]
    } else {
        decimal(n / 10).push(digit_char(n % 10))
    }
}

/// Whether `c` is white space, as `char::is_whitespace` decides.
pub fn is_space_char(c: char) -> (r: bool)
    ensures
        r == is_space(c),
{
    ('\u{9}' <= c && c <= '\u{d}') || c == ' ' || c == '\u{85}' || c == '\u{a0}' || c == '\u{1680}'
        || ('\u{2000}' <= c && c <= '\u{200a}') || c == '\u{2028}' || c == '\u{2029}' || c
        == '\u{202f}' || c == '\u{205f}' || c == '\u{3000}'
}

/// Whether `a` and `b` are the same text.
pub fn same_text(a: &str, b: &str) -> (r: bool)
    ensures
        r == (a@ == b@),
{
    String::from_str(a).eq(&String::from_str(b))
}

/// `s` without leading and trailing white space.
pub fn trim(s: &str) -> (r: String)
    ensures
        r@ == trimmed(s@),
{
    let n = s.unicode_len();
    let mut a: usize = 0;
    assert(s@.subrange(0, n as int) =~= s@);
    while a < n && is_space_char(s.get_char(a))
        invariant
            n == s@.len(),
            a <= n,
            trim_start(s@) == trim_start(s@.subrange(a as int, n as int)),
        decreases n - a,
    {
        assert(s@.subrange(a as int, n as int).drop_first() =~= s@.subrange(a + 1, n as int));
        a = a + 1;
    }
    let ghost start = s@.subrange(a as int, n as int);
    assert(trim_start(s@) == start);
    let mut b: usize = n;
    while b > a && is_space_char(s.get_char(b - 1))
        invariant
            n == s@.len(),
            a <= b <= n,
            start == s@.subrange(a as int, n as int),
            trim_end(start) == trim_end(s@.subrange(a as int, b as int)),
        decreases b,
    {
        assert(s@.subrange(a as int, b as int).drop_last() =~= s@.subrange(a as int, b - 1));
        b = b - 1;
    }
    String::from_str(s.substring_char(a, b))
}

/// `s` with every `c` replaced by `rep`.
pub fn replace(s: &str, c: char, rep: &str) -> (r: String)
    ensures
        r@ == replace_char(s@, c, rep@),
{
    let n = s.unicode_len();
    let mut r = String::new();
    let mut i: usize = 0;
    while i < n
        invariant
            n == s@.len(),
            i <= n,
            r@ == replace_char(s@.subrange(0, i as int), c, rep@),
        decreases n - i,
    {
        let x = s.get_char(i);
        assert(s@.subrange(0, i + 1).drop_last() =~= s@.subrange(0, i as int));
        if x == c {
            r.append(rep);
        } else {
            r.push(x);
            assert(r@ =~= replace_char(s@.subrange(0, i as int), c, rep@) + seq![x]);
        }
        i = i + 1;
    }
    assert(s@.subrange(0, n as int) =~= s@);
    r
}

/// The part of `s` after its last `sep`.
pub fn last_part(s: &str, sep: char) -> (r: String)
    ensures
        r@ == after_last(s@, sep),
{
    let n = s.unicode_len();
    let mut j: usize = n;
    assert(s@.subrange(0, n as int) =~= s@);
    assert(s@.subrange(n as int, n as int) =~= Seq::<char>::empty());
    while j > 0 && s.get_char(j - 1) != sep
        invariant
            n == s@.len(),
            j <= n,
            after_last(s@, sep) == after_last(s@.subrange(0, j as int), sep) + s@.subrange(
                j as int,
                n as int,
            ),
        decreases j,
    {
        let ghost pre = s@.subrange(0, j as int);
        assert(pre.drop_last() =~= s@.subrange(0, j - 1));
        assert(s@.subrange(j - 1, n as int) =~= seq![pre.last()] + s@.subrange(j as int, n as int));
        assert(after_last(pre, sep) =~= after_last(s@.subrange(0, j - 1), sep).push(pre.last()));
        assert(after_last(pre, sep) + s@.subrange(j as int, n as int) =~= after_last(
            s@.subrange(0, j - 1),
            sep,
        ) + s@.subrange(j - 1, n as int));
        j = j - 1;
    }
    assert(after_last(s@.subrange(0, j as int), sep) =~= Seq::<char>::empty());
    assert(after_last(s@, sep) =~= s@.subrange(j as int, n as int));
    String::from_str(s.substring_char(j, n))
}

proof fn lemma_digits_value_grows(s: Seq<char>, k: int)
    requires
        0 <= k <= s.len(),
        all_digits(s),
    ensures
        digits_value(s.subrange(0, k)) <= digits_value(s),
    decreases s.len() - k,
{
    if k < s.len() {
        lemma_digits_value_grows(s, k + 1);
        assert(s.subrange(0, k + 1).drop_last() =~= s.subrange(0, k));
    } else {
        assert(s.subrange(0, k) =~= s);
    }
}

/// `str::parse` into an unsigned integer type whose largest value is `max`.
pub fn parse_unsigned_str(s: &str, max: u64) -> (r: Option<u64>)
    ensures
        match r {
            Some(v) => parse_unsigned(s@, max as nat) == Some(v as nat),
            None => parse_unsigned(s@, max as nat) is None,
        },
{
    let n = s.unicode_len();
    let mut start: usize = 0;
    if n > 0 && s.get_char(0) == '+' {
        start = 1;
    }
    let ghost digits = s@.subrange(start as int, n as int);
    assert(digits =~= unsigned_digits(s@));
    if start == n {
        return None;
    }
    let mut i: usize = start;
    while i < n
        invariant
            n == s@.len(),
            start <= i <= n,
            digits == s@.subrange(start as int, n as int),
            digits == unsigned_digits(s@),
            forall|j: int| start <= j < i ==> is_digit(#[trigger] s@[j]),
        decreases n - i,
    {
        if !('0' <= s.get_char(i) && s.get_char(i) <= '9') {
            assert(!is_digit(digits[i - start]));
            assert(!all_digits(digits));
            return None;
        }
        i = i + 1;
    }
    assert(all_digits(digits));
    let mut v: u64 = 0;
    let mut k: usize = start;
    while k < n
        invariant
            n == s@.len(),
            start <= k <= n,
            digits == s@.subrange(start as int, n as int),
            digits == unsigned_digits(s@),
            all_digits(digits),
            v as nat == digits_value(digits.subrange(0, k - start)),
            v <= max,
        decreases n - k,
    {
        let d = s.get_char(k);
        assert(is_digit(digits[k - start]));
        let dv: u64 = (d as u32 - '0' as u32) as u64;
        assert(digits.subrange(0, k + 1 - start).drop_last() =~= digits.subrange(0, k - start));
        assert(digits.subrange(0, k + 1 - start).last() == d);
        assert(digit_value(d) == dv);
        assert(digits_value(digits.subrange(0, k + 1 - start)) == v * 10 + dv);
        if dv > max {
            proof {
                lemma_digits_value_grows(digits, k + 1 - start);
            }
            return None;
        }
        if v > (max - dv) / 10 {
            assert(digits_value(digits.subrange(0, k + 1 - start)) > max) by (nonlinear_arith)
                requires
                    digits_value(digits.subrange(0, k + 1 - start)) == v * 10 + dv,
                    v > (max - dv) / 10,
                    dv <= max,
            {
            }
            proof {
                lemma_digits_value_grows(digits, k + 1 - start);
            }
            return None;
        }
        assert(v * 10 + dv <= max) by (nonlinear_arith)
            requires
                v <= (max - dv) / 10,
                dv <= 9,
                v <= max,
        {
        }
        v = v * 10 + dv;
        k = k + 1;
    }
    assert(digits.subrange(0, n - start) =~= digits);
    Some(v)
}

/// The decimal digits of `n`, appended to `out`.
fn push_decimal(n: u64, out: &mut String)
    ensures
        final(out)@ == old(out)@ + decimal(n as nat),
    decreases n,
{
    if n >= 10 {
        push_decimal(n / 10, out);
    }
    let d: u8 = (n % 10) as u8;
    out.push((48u8 + d) as char);
}

/// The decimal representation of `n`, as `to_string` writes it.
pub fn decimal_string(n: u64) -> (r: String)
    ensures
        r@ == decimal(n as nat),
{
    let mut r = String::new();
    push_decimal(n, &mut r);
    r
}

/// Reading back the decimal representation of a number gives the number.
pub proof fn lemma_decimal_digits(n: nat)
    ensures
        all_digits(decimal(n)),
        decimal(n).len() > 0,
        digits_value(decimal(n)) == n,
    decreases n,
{
    lemma_digit_char(n % 10);
    if n < 10 {
        lemma_digit_char(n);
        assert(decimal(n).drop_last() =~= Seq::<char>::empty());
        assert(decimal(n).last() == digit_char(n));
        assert(digits_value(decimal(n)) == digits_value(Seq::<char>::empty()) * 10 + n);
    }
    if n >= 10 {
        lemma_decimal_digits(n / 10);
        let s = decimal(n);
        assert(s.drop_last() =~= decimal(n / 10));
        assert(s.last() == digit_char(n % 10));
        assert(digits_value(s) == digits_value(decimal(n / 10)) * 10 + n % 10);
        assert(n == (n / 10) * 10 + n % 10) by (nonlinear_arith);
        assert forall|i: int| 0 <= i < s.len() implies is_digit(#[trigger] s[i]) by {
            if i < s.len() - 1 {
                assert(s[i] == decimal(n / 10)[i]);
            }
        }
    }
}

/// Parsing what `decimal_string` writes gives back the number, for any bound
/// that the number does not exceed.
pub proof fn lemma_parse_decimal_roundtrip(n: nat, max: nat)
    requires
        n <= max,
    ensures
        parse_unsigned(decimal(n), max) == Some(n),
{
    lemma_decimal_digits(n);
    let s = decimal(n);
    if n >= 10 {
        assert(s[0] == decimal(n / 10)[0]) by {
            assert(s =~= decimal(n / 10).push(digit_char(n % 10)));
            lemma_decimal_digits(n / 10);
        }
        lemma_first_digit_not_plus(n / 10);
    }
}

proof fn lemma_first_digit_not_plus(n: nat)
    ensures
        decimal(n)[0] != '+',
    decreases n,
{
    lemma_decimal_digits(n);
    assert(is_digit(decimal(n)[0]));
}

proof fn lemma_trim_start_shape(s: Seq<char>)
    ensures
        trim_start(s).len() == 0 || !is_space(trim_start(s)[0]),
    decreases s.len(),
{
    if s.len() > 0 && is_space(s[0]) {
        lemma_trim_start_shape(s.drop_first());
    }
}

proof fn lemma_trim_end_shape(s: Seq<char>)
    ensures
        trim_end(s).len() <= s.len(),
        trim_end(s) == s.subrange(0, trim_end(s).len() as int),
        trim_end(s).len() == 0 || !is_space(trim_end(s).last()),
    decreases s.len(),
{
    if s.len() > 0 && is_space(s.last()) {
        lemma_trim_end_shape(s.drop_last());
        let t = trim_end(s.drop_last());
        assert(t =~= s.subrange(0, t.len() as int));
    } else {
        assert(s =~= s.subrange(0, s.len() as int));
    }
}

/// Trimming text that is already trimmed leaves it as it is.
pub proof fn lemma_trim_idempotent(s: Seq<char>)
    ensures
        trimmed(trimmed(s)) == trimmed(s),
{
    let t = trim_start(s);
    let u = trim_end(t);
    lemma_trim_start_shape(s);
    lemma_trim_end_shape(t);
    if u.len() > 0 {
        assert(u[0] == t[0]);
    }
    assert(trim_start(u) == u);
    assert(trim_end(u) == u);
}

/// A character `d` that `s` holds only where it holds `c`, and that `rep`
/// does not hold, is not in `replace_char(s, c, rep)`.
pub proof fn lemma_replace_char_avoids(s: Seq<char>, c: char, rep: Seq<char>, d: char)
    requires
        forall|j: int| 0 <= j < s.len() ==> #[trigger] s[j] == c || s[j] != d,
        forall|j: int| 0 <= j < rep.len() ==> #[trigger] rep[j] != d,
    ensures
        forall|i: int|
            0 <= i < replace_char(s, c, rep).len() ==> #[trigger] replace_char(s, c, rep)[i] != d,
    decreases s.len(),
{
    if s.len() > 0 {
        assert forall|j: int| 0 <= j < s.drop_last().len() implies #[trigger] s.drop_last()[j] == c
            || s.drop_last()[j] != d by {
            assert(s.drop_last()[j] == s[j]);
        }
        lemma_replace_char_avoids(s.drop_last(), c, rep, d);
        let front = replace_char(s.drop_last(), c, rep);
        let piece = if s.last() == c {
            rep
        } else {
            seq![s.last()]
        };
        assert(s.last() == s[s.len() - 1]);
        assert forall|i: int| 0 <= i < replace_char(s, c, rep).len() implies #[trigger] replace_char(
            s,
            c,
            rep,
        )[i] != d by {
            assert(replace_char(s, c, rep) == front + piece);
            if i >= front.len() {
                assert(replace_char(s, c, rep)[i] == piece[i - front.len()]);
            } else {
                assert(replace_char(s, c, rep)[i] == front[i]);
            }
        }
    }
}

/// No character of `replace_char(s, c, rep)` is `c` when none of `rep` is.
pub proof fn lemma_replace_char_removes(s: Seq<char>, c: char, rep: Seq<char>)
    requires
        forall|i: int| 0 <= i < rep.len() ==> rep[i] != c,
    ensures
        forall|i: int|
            0 <= i < replace_char(s, c, rep).len() ==> #[trigger] replace_char(s, c, rep)[i] != c,
{
    lemma_replace_char_avoids(s, c, rep, c);
}

/// Text made only of ASCII digits, at least one, reads as the number those
/// digits stand for whenever it does not exceed `max` (as `str::parse` does).
pub proof fn lemma_parse_digits(t: Seq<char>, max: nat)
    requires
        t.len() > 0,
        all_digits(t),
        digits_value(t) <= max,
    ensures
        parse_unsigned(t, max) == Some(digits_value(t)),
{
    assert(is_digit(t[0]));
    assert(unsigned_digits(t) == t);
}

/// Text made only of ASCII digits reads as nothing when its number exceeds
/// `max`.
pub proof fn lemma_parse_digits_too_large(t: Seq<char>, max: nat)
    requires
        t.len() > 0,
        all_digits(t),
        digits_value(t) > max,
    ensures
        parse_unsigned(t, max) is None,
{
    assert(is_digit(t[0]));
    assert(unsigned_digits(t) == t);
}

/// Replacing a character that `s` does not hold leaves `s` as it is.
pub proof fn lemma_replace_char_absent(s: Seq<char>, c: char, rep: Seq<char>)
    requires
        forall|i: int| 0 <= i < s.len() ==> #[trigger] s[i] != c,
    ensures
        replace_char(s, c, rep) == s,
    decreases s.len(),
{
    if s.len() > 0 {
        assert forall|i: int| 0 <= i < s.drop_last().len() implies #[trigger] s.drop_last()[i] != c by {
            assert(s.drop_last()[i] == s[i]);
        }
        lemma_replace_char_absent(s.drop_last(), c, rep);
        assert(s.last() == s[s.len() - 1]);
        assert(s.drop_last().push(s.last()) =~= s);
        assert(s.drop_last() + seq![s.last()] =~= s);
    } else {
        assert(s =~= Seq::<char>::empty());
    }
}

/// Replacing in two pieces of text one after the other is replacing in each.
pub proof fn lemma_replace_char_concat(x: Seq<char>, y: Seq<char>, c: char, rep: Seq<char>)
    ensures
        replace_char(x + y, c, rep) == replace_char(x, c, rep) + replace_char(y, c, rep),
    decreases y.len(),
{
    if y.len() == 0 {
        assert(x + y =~= x);
        assert(replace_char(x, c, rep) + replace_char(y, c, rep) =~= replace_char(x, c, rep));
    } else {
        lemma_replace_char_concat(x, y.drop_last(), c, rep);
        assert((x + y).drop_last() =~= x + y.drop_last());
        assert((x + y).last() == y.last());
        let piece = if y.last() == c {
            rep
        } else {
            seq![y.last()]
        };
        assert(replace_char(x + y, c, rep) == replace_char(x + y.drop_last(), c, rep) + piece);
        assert(replace_char(y, c, rep) == replace_char(y.drop_last(), c, rep) + piece);
        assert(replace_char(x, c, rep) + replace_char(y.drop_last(), c, rep) + piece =~= replace_char(
            x,
            c,
            rep,
        ) + (replace_char(y.drop_last(), c, rep) + piece));
    }
}

/// Replacing the one character `c` gives the replacement.
pub proof fn lemma_replace_char_single(c: char, rep: Seq<char>)
    ensures
        replace_char(seq![c], c, rep) == rep,
{
    let one = seq![c];
    assert(one.drop_last() =~= Seq::<char>::empty());
    assert(one.last() == c);
    assert(replace_char(one.drop_last(), c, rep) == Seq::<char>::empty());
    assert(replace_char(one, c, rep) == replace_char(one.drop_last(), c, rep) + rep);
    assert(Seq::<char>::empty() + rep =~= rep);
}

/// Text without `sep` is its own last part.
pub proof fn lemma_after_last_without_sep(b: Seq<char>, sep: char)
    requires
        forall|i: int| 0 <= i < b.len() ==> #[trigger] b[i] != sep,
    ensures
        after_last(b, sep) == b,
    decreases b.len(),
{
    if b.len() > 0 {
        assert forall|i: int| 0 <= i < b.drop_last().len() implies #[trigger] b.drop_last()[i] != sep by {
            assert(b.drop_last()[i] == b[i]);
        }
        lemma_after_last_without_sep(b.drop_last(), sep);
        assert(b.last() == b[b.len() - 1]);
        assert(b.drop_last().push(b.last()) =~= b);
    } else {
        assert(b =~= Seq::<char>::empty());
    }
}

/// The last part of `a`, a `sep`, and then `b` without `sep`, is `b`.
pub proof fn lemma_after_last_of(a: Seq<char>, b: Seq<char>, sep: char)
    requires
        forall|i: int| 0 <= i < b.len() ==> #[trigger] b[i] != sep,
    ensures
        after_last(a + seq![sep] + b, sep) == b,
    decreases b.len(),
{
    let s = a + seq![sep] + b;
    if b.len() == 0 {
        assert(s.last() == sep);
    } else {
        assert forall|i: int| 0 <= i < b.drop_last().len() implies #[trigger] b.drop_last()[i] != sep by {
            assert(b.drop_last()[i] == b[i]);
        }
        lemma_after_last_of(a, b.drop_last(), sep);
        assert(s.drop_last() =~= a + seq![sep] + b.drop_last());
        assert(s.last() == b[b.len() - 1]);
        assert(b.drop_last().push(b.last()) =~= b);
    }
}

proof fn lemma_trim_start_suffix(s: Seq<char>)
    ensures
        trim_start(s).len() <= s.len(),
        trim_start(s) == s.subrange(s.len() - trim_start(s).len(), s.len() as int),
        forall|i: int| 0 <= i < s.len() - trim_start(s).len() ==> is_space(#[trigger] s[i]),
    decreases s.len(),
{
    if s.len() > 0 && is_space(s[0]) {
        lemma_trim_start_suffix(s.drop_first());
        let t = trim_start(s.drop_first());
        assert(s.drop_first().subrange(s.drop_first().len() - t.len(), s.drop_first().len() as int)
            =~= s.subrange(s.len() - t.len(), s.len() as int));
        assert forall|i: int| 0 <= i < s.len() - t.len() implies is_space(#[trigger] s[i]) by {
            if i > 0 {
                assert(s[i] == s.drop_first()[i - 1]);
            }
        }
    } else {
        assert(s.subrange(0, s.len() as int) =~= s);
    }
}

proof fn lemma_trim_end_prefix(s: Seq<char>)
    ensures
        forall|i: int| trim_end(s).len() <= i < s.len() ==> is_space(#[trigger] s[i]),
    decreases s.len(),
{
    if s.len() > 0 && is_space(s.last()) {
        lemma_trim_end_prefix(s.drop_last());
        assert forall|i: int| trim_end(s).len() <= i < s.len() implies is_space(#[trigger] s[i]) by {
            if i < s.len() - 1 {
                assert(s[i] == s.drop_last()[i]);
            }
        }
    }
}

/// Trimmed text is the piece of `s` left once the white space at both ends
/// is cut: it starts at `start`, everything before it and after it is white
/// space, and it neither starts nor ends with white space.
pub proof fn lemma_trim_shape(s: Seq<char>)
    ensures
        ({
            let t = trimmed(s);
            let start = s.len() - trim_start(s).len();
            &&& 0 <= start && start + t.len() <= s.len()
            &&& t == s.subrange(start, start + t.len())
            &&& forall|i: int| 0 <= i < start ==> is_space(#[trigger] s[i])
            &&& forall|i: int| start + t.len() <= i < s.len() ==> is_space(#[trigger] s[i])
            &&& t.len() > 0 ==> !is_space(t[0]) && !is_space(t.last())
        }),
{
    let u = trim_start(s);
    let t = trim_end(u);
    let start = s.len() - u.len();
    lemma_trim_start_suffix(s);
    lemma_trim_start_shape(s);
    lemma_trim_end_shape(u);
    lemma_trim_end_prefix(u);
    assert(t =~= s.subrange(start, start + t.len()));
    assert forall|i: int| start + t.len() <= i < s.len() implies is_space(#[trigger] s[i]) by {
        assert(s[i] == u[i - start]);
    }
    if t.len() > 0 {
        assert(t[0] == u[0]);
    }
}

} // verus!
