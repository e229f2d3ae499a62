//! Which texts Rust reads as an `f64`. The documentation of `f64`'s
//! `FromStr` gives the grammar, read without regard to letter case:
//!
//! ```text
//! Float  ::= Sign? ( 'inf' | 'infinity' | 'nan' | Number )
//! Number ::= ( Digit+ | Digit+ '.' Digit* | Digit* '.' Digit+ ) Exp?
//! Exp    ::= 'e' Sign? Digit+
//! Sign   ::= [+-]
//! Digit  ::= [0-9]
//! ```
//!
//! A number literal is kept as its text, so this is the only property of
//! the `f64` reading the library needs.
use crate::scanner::{digit_run, is_digit, lemma_digit_run, lemma_digit_run_of_digits};
use vstd::prelude::*;
use vstd::string::*;

verus! {

pub open spec fn is_sign(c: char) -> bool {
    c == '+' || c == '-'
}

/// `s` without its leading sign, if it has one.
pub open spec fn without_sign(s: Seq<char>) -> Seq<char> {
    if s.len() > 0 && is_sign(s[0]) {
        s.drop_first()
    } else {
        s
    }
}

pub open spec fn all_digits(s: Seq<char>) -> bool {
    forall|i: int| 0 <= i < s.len() ==> is_digit(#[trigger] s[i])
}

/// `s` spells `lower`, letter by letter in either case (`upper` holds the
/// same letters in upper case).
pub open spec fn spells(s: Seq<char>, lower: Seq<char>, upper: Seq<char>) -> bool {
    &&& s.len() == lower.len()
    &&& lower.len() == upper.len()
    &&& forall|i: int| 0 <= i < s.len() ==> #[trigger] s[i] == lower[i] || s[i] == upper[i]
}

/// `inf`, `infinity` or `nan`, in any case.
pub open spec fn is_special_float(s: Seq<char>) -> bool {
    ||| spells(s, seq!['i', 'n', 'f'], seq!['I', 'N', 'F'])
    ||| spells(s, seq!['i', 'n', 'f', 'i', 'n', 'i', 't', 'y'], seq!['I', 'N', 'F', 'I', 'N', 'I', 'T', 'Y'])
    ||| spells(s, seq!['n', 'a', 'n'], seq!['N', 'A', 'N'])
}

/// `Digit+ | Digit+ '.' Digit* | Digit* '.' Digit+`
pub open spec fn is_mantissa(s: Seq<char>) -> bool {
    let a = digit_run(s);
    if a == s.len() {
        a > 0
    } else {
        s[a as int] == '.' && all_digits(s.skip((a + 1) as int)) && (a > 0 || s.len() > a + 1)
    }
}

/// The number of characters before the first `e` or `E` of `s` (all of them
/// when there is none).
pub open spec fn mantissa_run(s: Seq<char>) -> nat
    decreases s.len(),
{
    if s.len() > 0 && s[0] != 'e' && s[0] != 'E' {
        1 + mantissa_run(s.drop_first())
    } else {
        0
    }
}

/// What follows the `e` of an exponent: `Sign? Digit+`.
pub open spec fn is_exponent_digits(s: Seq<char>) -> bool {
    let d = without_sign(s);
    d.len() > 0 && all_digits(d)
}

/// `Number`: a mantissa, then an optional exponent.
pub open spec fn is_decimal(s: Seq<char>) -> bool {
    let m = mantissa_run(s);
    &&& is_mantissa(s.take(m as int))
    &&& (m == s.len() || is_exponent_digits(s.skip((m + 1) as int)))
}

/// The texts that `f64`'s `FromStr` reads as a number.
pub open spec fn valid_float_text(s: Seq<char>) -> bool {
    let body = without_sign(s);
    is_special_float(body) || is_decimal(body)
}

proof fn lemma_all_digits(s: Seq<char>)
    ensures
        all_digits(s) <==> digit_run(s) == s.len(),
{
    lemma_digit_run(s);
}

/// Every character of `s` is a decimal digit.
pub open spec fn decimal_digits(s: Seq<char>) -> bool {
    forall|i: int| 0 <= i < s.len() ==> '0' <= #[trigger] s[i] && s[i] <= '9'
}

/// A text with no `e` or `E` is a mantissa throughout.
proof fn lemma_mantissa_run_whole(s: Seq<char>)
    requires
        forall|i: int| 0 <= i < s.len() ==> #[trigger] s[i] != 'e' && s[i] != 'E',
    ensures
        mantissa_run(s) == s.len(),
    decreases s.len(),
{
    if s.len() > 0 {
        assert forall|i: int| 0 <= i < s.drop_first().len() implies #[trigger] s.drop_first()[i] != 'e'
            && s.drop_first()[i] != 'E' by {
            assert(s.drop_first()[i] == s[i + 1]);
        }
        lemma_mantissa_run_whole(s.drop_first());
    }
}

/// The texts the scanner reads as numbers, digits with an optional
/// fraction of digits, are all texts that `f64` accepts, however many
/// digits they have on either side of the point.
pub proof fn lemma_number_texts_are_floats(a: Seq<char>, b: Seq<char>)
    requires
        a.len() > 0,
        decimal_digits(a),
        b.len() > 0,
        decimal_digits(b),
    ensures
        valid_float_text(a),
        valid_float_text(a + seq!['.'] + b),
{
    let x = a + seq!['.'] + b;
    assert(without_sign(a) == a) by {
        assert('0' <= a[0] && a[0] <= '9');
    }
    assert(without_sign(x) == x) by {
        assert(x[0] == a[0]);
        assert('0' <= a[0] && a[0] <= '9');
    }
    // the whole of `a` is one mantissa of digits
    assert forall|i: int| 0 <= i < a.len() implies #[trigger] a[i] != 'e' && a[i] != 'E' by {
        assert('0' <= a[i] && a[i] <= '9');
    }
    lemma_mantissa_run_whole(a);
    lemma_digit_run_of_digits(a, Seq::empty());
    assert(a + Seq::<char>::empty() =~= a);
    assert(a.take(a.len() as int) =~= a);
    // `a.b` is one mantissa: digits, the point, digits
    assert forall|i: int| 0 <= i < x.len() implies #[trigger] x[i] != 'e' && x[i] != 'E' by {
        if i < a.len() {
            assert(x[i] == a[i]);
            assert('0' <= a[i] && a[i] <= '9');
        } else if i > a.len() {
            assert(x[i] == b[i - a.len() - 1]);
            assert('0' <= b[i - a.len() - 1] && b[i - a.len() - 1] <= '9');
        }
    }
    lemma_mantissa_run_whole(x);
    assert(x =~= a + (seq!['.'] + b));
    lemma_digit_run_of_digits(a, seq!['.'] + b);
    assert(x.take(x.len() as int) =~= x);
    assert(x[a.len() as int] == '.');
    assert(x.skip((a.len() + 1) as int) =~= b);
    assert(all_digits(b)) by {
        assert forall|i: int| 0 <= i < b.len() implies is_digit(#[trigger] b[i]) by {
            assert('0' <= b[i] && b[i] <= '9');
        }
    }
    assert(all_digits(x.skip((a.len() + 1) as int)));
    assert(is_mantissa(x));
    assert(is_decimal(x));
}

/// The mantissa run of a text without `e` or `E` followed by an exponent
/// mark is that text.
proof fn lemma_mantissa_run_prefix(p: Seq<char>, r: Seq<char>)
    requires
        forall|i: int| 0 <= i < p.len() ==> #[trigger] p[i] != 'e' && p[i] != 'E',
        r.len() > 0,
        r[0] == 'e' || r[0] == 'E',
    ensures
        mantissa_run(p + r) == p.len(),
    decreases p.len(),
{
    if p.len() == 0 {
        assert(p + r =~= r);
    } else {
        assert((p + r).drop_first() =~= p.drop_first() + r);
        assert((p + r)[0] == p[0]);
        assert forall|i: int| 0 <= i < p.drop_first().len() implies #[trigger] p.drop_first()[i] != 'e'
            && p.drop_first()[i] != 'E' by {
            assert(p.drop_first()[i] == p[i + 1]);
        }
        lemma_mantissa_run_prefix(p.drop_first(), r);
    }
}

/// Digits with an exponent of digits, `e` or `E` and an optional sign
/// between, are texts that `f64` accepts; an empty text and a lone point are
/// not.
pub proof fn lemma_exponent_texts(a: Seq<char>, mark: char, sign: Seq<char>, d: Seq<char>)
    requires
        a.len() > 0,
        decimal_digits(a),
        mark == 'e' || mark == 'E',
        sign.len() == 0 || sign == seq!['+'] || sign == seq!['-'],
        d.len() > 0,
        decimal_digits(d),
    ensures
        valid_float_text(a + seq![mark] + sign + d),
        !valid_float_text(Seq::empty()),
        !valid_float_text(seq!['.']),
{
    let x = a + seq![mark] + sign + d;
    assert(x[0] == a[0]);
    assert('0' <= a[0] && a[0] <= '9');
    assert(without_sign(x) == x);
    assert forall|i: int| 0 <= i < a.len() implies #[trigger] a[i] != 'e' && a[i] != 'E' by {
        assert('0' <= a[i] && a[i] <= '9');
    }
    lemma_mantissa_run_prefix(a, seq![mark] + sign + d);
    assert(x =~= a + (seq![mark] + sign + d));
    let m = a.len() as int;
    assert(x.take(m) =~= a);
    assert forall|i: int| 0 <= i < a.len() implies is_digit(#[trigger] a[i]) by {
        assert('0' <= a[i] && a[i] <= '9');
    }
    lemma_digit_run_of_digits(a, Seq::empty());
    assert(a + Seq::<char>::empty() =~= a);
    assert(is_mantissa(a));
    assert(x.skip(m + 1) =~= sign + d);
    assert(without_sign(sign + d) =~= d) by {
        if sign.len() > 0 {
            assert((sign + d)[0] == sign[0]);
            assert((sign + d).drop_first() =~= d);
        } else {
            assert(sign + d =~= d);
            assert('0' <= d[0] && d[0] <= '9');
        }
    }
    assert(all_digits(d)) by {
        assert forall|i: int| 0 <= i < d.len() implies is_digit(#[trigger] d[i]) by {
            assert('0' <= d[i] && d[i] <= '9');
        }
    }
    assert(is_exponent_digits(x.skip(m + 1)));
    assert(is_decimal(x));
    // a lone point has no digit on either side of it
    reveal_with_fuel(mantissa_run, 2);
    let dot = seq!['.'];
    assert(without_sign(dot) == dot);
    assert(mantissa_run(dot.drop_first()) == 0);
    assert(mantissa_run(dot) == 1);
    assert(dot.take(1) =~= dot);
    assert(digit_run(dot) == 0);
    assert(dot.len() == 1);
}

/// The characters of `text`, in order.
fn chars_of(text: &str) -> (v: Vec<char>)
    ensures
        v@ == text@,
{
    let n = text.unicode_len();
    let mut v: Vec<char> = Vec::new();
    let mut i: usize = 0;
    while i < n
        invariant
            n == text@.len(),
            i <= n,
            v@ == text@.take(i as int),
        decreases n - i,
    {
        let c = text.get_char(i);
        v.push(c);
        i = i + 1;
        proof {
            assert(v@ =~= text@.take(i as int));
        }
    }
    proof {
        assert(text@.take(n as int) =~= text@);
    }
    v
}

/// The number of digits at the start of `s[from..to]`.
fn digit_count(s: &Vec<char>, from: usize, to: usize) -> (n: usize)
    requires
        from <= to <= s@.len(),
    ensures
        n == digit_run(s@.subrange(from as int, to as int)),
        n <= to - from,
{
    let mut j = from;
    while j < to && '0' <= s[j] && s[j] <= '9'
        invariant
            from <= j <= to <= s@.len(),
            digit_run(s@.subrange(from as int, to as int)) == (j - from) + digit_run(
                s@.subrange(j as int, to as int),
            ),
        decreases to - j,
    {
        proof {
            assert(s@.subrange(j as int, to as int).drop_first() =~= s@.subrange(j + 1, to as int));
        }
        j = j + 1;
    }
    j - from
}

/// The number of characters at the start of `s[from..to]` before an `e` or
/// `E`.
fn mantissa_count(s: &Vec<char>, from: usize, to: usize) -> (n: usize)
    requires
        from <= to <= s@.len(),
    ensures
        n == mantissa_run(s@.subrange(from as int, to as int)),
        n <= to - from,
{
    let mut j = from;
    while j < to && s[j] != 'e' && s[j] != 'E'
        invariant
            from <= j <= to <= s@.len(),
            mantissa_run(s@.subrange(from as int, to as int)) == (j - from) + mantissa_run(
                s@.subrange(j as int, to as int),
            ),
        decreases to - j,
    {
        proof {
            assert(s@.subrange(j as int, to as int).drop_first() =~= s@.subrange(j + 1, to as int));
        }
        j = j + 1;
    }
    j - from
}

/// `s[from..to]` spells the word given in `lower` and `upper` case.
fn spells_range(s: &Vec<char>, from: usize, to: usize, lower: &Vec<char>, upper: &Vec<char>) -> (b: bool)
    requires
        from <= to <= s@.len(),
        lower@.len() == upper@.len(),
    ensures
        b == spells(s@.subrange(from as int, to as int), lower@, upper@),
{
    let ghost x = s@.subrange(from as int, to as int);
    if to - from != lower.len() {
        return false;
    }
    let mut i: usize = 0;
    while i < lower.len()
        invariant
            x == s@.subrange(from as int, to as int),
            to - from == lower@.len(),
            lower@.len() == upper@.len(),
            from <= to <= s@.len(),
            i <= lower@.len(),
            forall|k: int| 0 <= k < i ==> #[trigger] x[k] == lower@[k] || x[k] == upper@[k],
        decreases lower@.len() - i,
    {
        if s[from + i] != lower[i] && s[from + i] != upper[i] {
            proof {
                assert(x[i as int] == s@[from + i]);
            }
            return false;
        }
        proof {
            assert(x[i as int] == s@[from + i]);
        }
        i = i + 1;
    }
    true
}

/// `s[from..to]` is `inf`, `infinity` or `nan` in any case.
fn is_special_range(s: &Vec<char>, from: usize, to: usize) -> (b: bool)
    requires
        from <= to <= s@.len(),
    ensures
        b == is_special_float(s@.subrange(from as int, to as int)),
{
    let inf_lower = vec!['i', 'n', 'f'];
    let inf_upper = vec!['I', 'N', 'F'];
    let infinity_lower = vec!['i', 'n', 'f', 'i', 'n', 'i', 't', 'y'];
    let infinity_upper = vec!['I', 'N', 'F', 'I', 'N', 'I', 'T', 'Y'];
    let nan_lower = vec!['n', 'a', 'n'];
    let nan_upper = vec!['N', 'A', 'N'];
    proof {
        assert(inf_lower@ =~= seq!['i', 'n', 'f']);
        assert(inf_upper@ =~= seq!['I', 'N', 'F']);
        assert(infinity_lower@ =~= seq!['i', 'n', 'f', 'i', 'n', 'i', 't', 'y']);
        assert(infinity_upper@ =~= seq!['I', 'N', 'F', 'I', 'N', 'I', 'T', 'Y']);
        assert(nan_lower@ =~= seq!['n', 'a', 'n']);
        assert(nan_upper@ =~= seq!['N', 'A', 'N']);
    }
    spells_range(s, from, to, &inf_lower, &inf_upper) || spells_range(
        s,
        from,
        to,
        &infinity_lower,
        &infinity_upper,
    ) || spells_range(s, from, to, &nan_lower, &nan_upper)
}

/// `s[from..to]` is `Digit+ | Digit+ '.' Digit* | Digit* '.' Digit+`.
fn is_mantissa_range(s: &Vec<char>, from: usize, to: usize) -> (b: bool)
    requires
        from <= to <= s@.len(),
    ensures
        b == is_mantissa(s@.subrange(from as int, to as int)),
{
    let ghost x = s@.subrange(from as int, to as int);
    let a = digit_count(s, from, to);
    if a == to - from {
        return a > 0;
    }
    let after_dot = from + a + 1;
    let tail = digit_count(s, after_dot, to);
    proof {
        assert(x[a as int] == s@[from + a]);
        assert(x.skip(a + 1) =~= s@.subrange(after_dot as int, to as int));
        lemma_all_digits(x.skip(a + 1));
    }
    s[from + a] == '.' && tail == to - after_dot && (a > 0 || to > after_dot)
}

/// `s[from..to]` is `Sign? Digit+`.
fn is_exponent_range(s: &Vec<char>, from: usize, to: usize) -> (b: bool)
    requires
        from <= to <= s@.len(),
    ensures
        b == is_exponent_digits(s@.subrange(from as int, to as int)),
{
    let start: usize = if from < to && (s[from] == '+' || s[from] == '-') {
        from + 1
    } else {
        from
    };
    let d = digit_count(s, start, to);
    proof {
        let x = s@.subrange(from as int, to as int);
        assert(without_sign(x) =~= s@.subrange(start as int, to as int));
        lemma_all_digits(s@.subrange(start as int, to as int));
    }
    start < to && d == to - start
}

/// `s[from..to]` is a `Number`: a mantissa, then an optional exponent.
fn is_decimal_range(s: &Vec<char>, from: usize, to: usize) -> (b: bool)
    requires
        from <= to <= s@.len(),
    ensures
        b == is_decimal(s@.subrange(from as int, to as int)),
{
    let m = mantissa_count(s, from, to);
    proof {
        let x = s@.subrange(from as int, to as int);
        assert(x.take(m as int) =~= s@.subrange(from as int, from + m));
        if m < to - from {
            assert(x.skip(m + 1) =~= s@.subrange(from + m + 1, to as int));
        }
    }
    if !is_mantissa_range(s, from, from + m) {
        return false;
    }
    m == to - from || is_exponent_range(s, from + m + 1, to)
}

/// Whether `text` is one that `f64`'s `FromStr` reads as a number.
pub fn is_float_text(text: &String) -> (b: bool)
    ensures
        b == valid_float_text(text@),
{
    let s = chars_of(text.as_str());
    let start: usize = if s.len() > 0 && (s[0] == '+' || s[0] == '-') {
        1
    } else {
        0
    };
    proof {
        assert(without_sign(s@) =~= s@.subrange(start as int, s@.len() as int));
    }
    is_special_range(&s, start, s.len()) || is_decimal_range(&s, start, s.len())
}

} // verus!
