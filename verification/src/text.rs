//! Building blocks for the strings that the library produces and compares.

use vstd::prelude::*;
use vstd::string::StringExecFns;
use vstd::string::StrSliceExecFns;
use vstd::std_specs::iter::IteratorSpec;

verus! {

/// `String::push` appends one character to the end of the string.
pub assume_specification[ String::push ](s: &mut String, c: char)
    ensures
        final(s)@ == old(s)@.push(c),
;

/// What `str::to_lowercase` returns for a string with the given characters.
pub uninterp spec fn lowercase(s: Seq<char>) -> Seq<char>;

/// `str::to_lowercase` returns the lowercase equivalent of the string as a
/// new `String`; the result depends on the characters alone.
pub assume_specification[ str::to_lowercase ](s: &str) -> (lowered: String)
    ensures
        lowered@ == lowercase(s@),
;

/// The decimal digit for a value below ten.
pub open spec fn digit(d: nat) -> char
    recommends
        d < 10,
{
    (d + 48) as char
}

/// The decimal numeral of `n`, without sign or leading zeros.
pub open spec fn decimal(n: nat) -> Seq<char>
    decreases n,
{
    if n < 10 {
        seq![digit(n)]
    } else {
        decimal(n / 10).push(digit(n % 10))
    }
}

/// A run of `n` spaces.
pub open spec fn spaces(n: nat) -> Seq<char> {
    Seq::new(n, |i: int| ' ')
}

/// `s` moved to the right edge of a field of `width` characters; a longer
/// `s` is left as it is.
pub open spec fn right_aligned(s: Seq<char>, width: nat) -> Seq<char> {
    if s.len() >= width {
        s
    } else {
        spaces((width - s.len()) as nat) + s
    }
}

/// Whether `a` comes before `b` in the order of strings: character by
/// character, by code point, a proper prefix first.
pub open spec fn lex_lt(a: Seq<char>, b: Seq<char>) -> bool
    decreases a.len(),
{
    if b.len() == 0 {
        false
    } else if a.len() == 0 {
        true
    } else if a[0] != b[0] {
        a[0] < b[0]
    } else {
        lex_lt(a.drop_first(), b.drop_first())
    }
}

/// Of two strings exactly one holds: the first comes before the second, they
/// are equal, or the second comes before the first.
pub proof fn lemma_lex_trichotomy(a: Seq<char>, b: Seq<char>)
    ensures
        lex_lt(a, b) || a == b || lex_lt(b, a),
        !(lex_lt(a, b) && a == b),
        !(lex_lt(a, b) && lex_lt(b, a)),
        !(a == b && lex_lt(b, a)),
    decreases a.len(),
{
    if a.len() == 0 || b.len() == 0 {
        if a.len() == 0 && b.len() == 0 {
            assert(a =~= b);
        }
    } else if a[0] != b[0] {
    } else {
        lemma_lex_trichotomy(a.drop_first(), b.drop_first());
        if a.drop_first() == b.drop_first() {
            assert(a =~= seq![a[0]] + a.drop_first());
            assert(b =~= seq![b[0]] + b.drop_first());
        }
    }
}

/// The order of strings is transitive.
pub proof fn lemma_lex_transitive(a: Seq<char>, b: Seq<char>, c: Seq<char>)
    requires
        lex_lt(a, b),
        lex_lt(b, c),
    ensures
        lex_lt(a, c),
    decreases a.len(),
{
    if a.len() > 0 && a[0] == b[0] && b[0] == c[0] {
        lemma_lex_transitive(a.drop_first(), b.drop_first(), c.drop_first());
    }
}

/// Whether the name begins with a dot.
pub open spec fn is_dot_name(name: Seq<char>) -> bool {
    name.len() > 0 && name[0] == '.'
}

/// A numeral has one digit below ten, and from ten on one more than the
/// numeral of its tenth.
pub proof fn lemma_decimal_len(n: nat)
    ensures
        decimal(n).len() >= 1,
        n < 10 ==> decimal(n).len() == 1,
        n >= 10 ==> decimal(n).len() == decimal(n / 10).len() + 1,
    decreases n,
{
    if n >= 10 {
        lemma_decimal_len(n / 10);
    }
}

/// Appends the decimal numeral of `n` to `out`.
pub fn push_decimal(out: &mut String, n: u64)
    ensures
        final(out)@ == old(out)@ + decimal(n as nat),
{
    push_decimal_wide(out, n as u128);
}

/// Appends the decimal numeral of a wide number to `out`.
pub fn push_decimal_wide(out: &mut String, n: u128)
    ensures
        final(out)@ == old(out)@ + decimal(n as nat),
    decreases n,
{
    if n >= 10 {
        push_decimal_wide(out, n / 10);
    }
    let d: u8 = (n % 10) as u8;
    out.push((d + 48) as char);
    assert(out@ =~= old(out)@ + decimal(n as nat));
}

/// Ten to the power `k`.
pub open spec fn pow10(k: nat) -> nat
    decreases k,
{
    if k == 0 {
        1
    } else {
        10 * pow10((k - 1) as nat)
    }
}

/// A number below ten to the `k` has at most `k` digits.
pub proof fn lemma_decimal_len_bound(n: nat, k: nat)
    requires
        k >= 1,
        n < pow10(k),
    ensures
        decimal(n).len() <= k,
    decreases n,
{
    if n >= 10 {
        assert(pow10(1) == 10) by {
            reveal_with_fuel(pow10, 2);
        }
        assert(k >= 2);
        lemma_decimal_len_bound(n / 10, (k - 1) as nat);
    }
}

/// The number of digits in the decimal numeral of `n`.
pub fn decimal_width(n: u64) -> (w: usize)
    ensures
        w == decimal(n as nat).len(),
        1 <= w <= 20,
{
    proof {
        assert(pow10(20) == 100000000000000000000) by {
            reveal_with_fuel(pow10, 21);
        }
        lemma_decimal_len_bound(n as nat, 20);
    }
    decimal_width_wide(n as u128)
}

/// The number of digits in the decimal numeral of a wide number.
pub fn decimal_width_wide(n: u128) -> (w: usize)
    ensures
        w == decimal(n as nat).len(),
        1 <= w <= 39,
{
    let mut w: usize = 1;
    let mut rest: u128 = n;
    proof {
        lemma_decimal_len(n as nat);
        assert(pow10(39) == 1000000000000000000000000000000000000000) by {
            reveal_with_fuel(pow10, 40);
        }
        lemma_decimal_len_bound(n as nat, 39);
    }
    while rest >= 10
        invariant
            1 <= w,
            w + decimal(rest as nat).len() == decimal(n as nat).len() + 1,
            decimal(n as nat).len() <= 39,
            decimal(rest as nat).len() >= 1,
        decreases rest,
    {
        proof {
            lemma_decimal_len(rest as nat);
            lemma_decimal_len((rest / 10) as nat);
        }
        rest = rest / 10;
        w = w + 1;
    }
    proof {
        lemma_decimal_len(rest as nat);
    }
    w
}

/// Appends `n` spaces to `out`.
pub fn push_spaces(out: &mut String, n: usize)
    ensures
        final(out)@ == old(out)@ + spaces(n as nat),
{
    let mut i: usize = 0;
    while i < n
        invariant
            i <= n,
            out@ == old(out)@ + spaces(i as nat),
        decreases n - i,
    {
        out.push(' ');
        i = i + 1;
        assert(out@ =~= old(out)@ + spaces(i as nat));
    }
}

/// Appends the decimal numeral of `n`, right-aligned in a field of `width`
/// characters.
pub fn push_decimal_aligned(out: &mut String, n: u64, width: usize)
    ensures
        final(out)@ == old(out)@ + right_aligned(decimal(n as nat), width as nat),
{
    push_decimal_wide_aligned(out, n as u128, width);
}

/// Appends the decimal numeral of a wide number, right-aligned in a field of
/// `width` characters.
pub fn push_decimal_wide_aligned(out: &mut String, n: u128, width: usize)
    ensures
        final(out)@ == old(out)@ + right_aligned(decimal(n as nat), width as nat),
{
    let w = decimal_width_wide(n);
    if w < width {
        push_spaces(out, width - w);
    }
    push_decimal_wide(out, n);
    assert(out@ =~= old(out)@ + right_aligned(decimal(n as nat), width as nat));
}

/// Appends `text`, right-aligned in a field of `width` characters.
pub fn push_aligned(out: &mut String, text: &str, width: usize)
    ensures
        final(out)@ == old(out)@ + right_aligned(text@, width as nat),
{
    let len = text.unicode_len();
    if len < width {
        push_spaces(out, width - len);
    }
    out.append(text);
    assert(out@ =~= old(out)@ + right_aligned(text@, width as nat));
}

/// Compares two strings in the order of strings, character by character:
/// below zero where `a` comes first, above zero where `b` comes first, zero
/// where they are equal.
pub fn text_order(a: &str, b: &str) -> (sign: i8)
    ensures
        (sign < 0) == lex_lt(a@, b@),
        (sign == 0) == (a@ == b@),
        (sign > 0) == lex_lt(b@, a@),
{
    let mut left = a.chars();
    let mut right = b.chars();
    let ghost mut done: nat = 0;
    proof {
        lemma_lex_trichotomy(a@, b@);
        assert(a@.skip(0) =~= a@);
        assert(b@.skip(0) =~= b@);
    }
    loop
        invariant
            left.obeys_prophetic_iter_laws(),
            right.obeys_prophetic_iter_laws(),
            done <= a@.len(),
            done <= b@.len(),
            left.remaining() == a@.skip(done as int),
            right.remaining() == b@.skip(done as int),
            lex_lt(a@, b@) == lex_lt(a@.skip(done as int), b@.skip(done as int)),
            lex_lt(b@, a@) == lex_lt(b@.skip(done as int), a@.skip(done as int)),
            (a@ == b@) == (a@.skip(done as int) == b@.skip(done as int)),
        decreases a@.len() - done,
    {
        let ghost rest_a = a@.skip(done as int);
        let ghost rest_b = b@.skip(done as int);
        let x = left.next();
        let y = right.next();
        proof {
            lemma_lex_trichotomy(rest_a, rest_b);
        }
        match (x, y) {
            (None, None) => {
                assert(rest_a =~= rest_b);
                return 0;
            },
            (None, Some(_)) => {
                return -1;
            },
            (Some(_), None) => {
                return 1;
            },
            (Some(c), Some(d)) => {
                if c < d {
                    return -1;
                }
                if c > d {
                    return 1;
                }
                proof {
                    assert(rest_a.drop_first() =~= a@.skip(done as int + 1));
                    assert(rest_b.drop_first() =~= b@.skip(done as int + 1));
                    lemma_lex_trichotomy(rest_a.drop_first(), rest_b.drop_first());
                    if rest_a.drop_first() == rest_b.drop_first() {
                        assert(rest_a =~= seq![rest_a[0]] + rest_a.drop_first());
                        assert(rest_b =~= seq![rest_b[0]] + rest_b.drop_first());
                    }
                    done = done + 1;
                }
            },
        }
    }
}

/// Tells whether the name begins with a dot.
pub fn starts_with_dot(name: &str) -> (dotted: bool)
    ensures
        dotted == is_dot_name(name@),
{
    if name.is_empty() {
        false
    } else {
        name.get_char(0) == '.'
    }
}

/// A copy of the text as an owned string.
pub fn owned(text: &str) -> (copy: String)
    ensures
        copy@ == text@,
{
    String::from_str(text)
}

} // verus!

