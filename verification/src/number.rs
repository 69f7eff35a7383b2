//! Decimal numbers: exact values, the reading of decimal text, and the
//! canonical text of a value. A literal is an optional sign, digits, and
//! optionally a point followed by digits.

use vstd::prelude::*;
use crate::text::{chars_of, string_from_chars};

verus! {

/// A decimal number: `mantissa / 10^scale`, negated where `negative` is set.
/// The scale is the number of digits that were written after the point.
#[derive(Clone, Copy, Debug, PartialEq, Eq, Structural)]
pub struct Decimal {
    pub negative: bool,
    pub mantissa: u64,
    pub scale: u8,
}

impl Decimal {
    /// The number is zero or above. Minus zero counts as zero.
    pub open spec fn is_non_negative(self) -> bool {
        !self.negative || self.mantissa == 0
    }
}

/// The character is one of the ten decimal digits.
pub open spec fn is_digit(c: char) -> bool {
    '0' <= c && c <= '9'
}

/// The number that a digit denotes.
pub open spec fn digit_value(c: char) -> nat {
    (c as u32 - 48) as nat
}

/// Every character of the text is a digit.
pub open spec fn all_digits(s: Seq<char>) -> bool {
    forall|i: int| 0 <= i < s.len() ==> is_digit(#[trigger] s[i])
}

/// The number that a run of digits denotes, most significant digit first.
pub open spec fn digits_value(s: Seq<char>) -> nat
    decreases s.len(),
{
    if s.len() == 0 {
        0
    } else {
        digits_value(s.drop_last()) * 10 + digit_value(s.last())
    }
}

/// How many digits stand at the start of `s`, counted from index `from`.
pub open spec fn digit_run(s: Seq<char>, from: int) -> int
    decreases s.len() - from,
{
    if 0 <= from < s.len() && is_digit(s[from]) {
        1 + digit_run(s, from + 1)
    } else {
        0
    }
}

/// The text without its sign.
pub open spec fn unsigned_part(s: Seq<char>) -> Seq<char> {
    if s.len() > 0 && (s[0] == '+' || s[0] == '-') {
        s.skip(1)
    } else {
        s
    }
}

/// The digits and the scale of a literal that has no sign: either digits
/// alone, or digits (maybe none), a point, and at least one digit. At most
/// 255 digits may follow the point, and the digits without the point must
/// denote at most `u64::MAX`.
pub open spec fn lex_unsigned(body: Seq<char>) -> Option<(u64, u8)> {
    let w = digit_run(body, 0);
    let whole = body.take(w);
    let rest = body.skip(w);
    if rest.len() == 0 {
        if w > 0 && digits_value(whole) <= u64::MAX {
            Some((digits_value(whole) as u64, 0u8))
        } else {
            None
        }
    } else if rest[0] == '.' && 2 <= rest.len() <= 256 && all_digits(rest.skip(1)) && digits_value(
        whole + rest.skip(1),
    ) <= u64::MAX {
        Some((digits_value(whole + rest.skip(1)) as u64, (rest.len() - 1) as u8))
    } else {
        None
    }
}

/// The number that a text denotes, where it is a decimal literal whose
/// digits fit: an optional sign, then a literal without sign. The number is
/// negative exactly where the sign is a minus.
pub open spec fn lex_decimal(s: Seq<char>) -> Option<Decimal> {
    match lex_unsigned(unsigned_part(s)) {
        Some((mantissa, scale)) => Some(
            Decimal { negative: s.len() > 0 && s[0] == '-', mantissa, scale },
        ),
        None => None,
    }
}

/// A digit appended to a run multiplies its value by ten and adds the digit.
pub proof fn lemma_digits_push(s: Seq<char>, c: char)
    ensures
        digits_value(s.push(c)) == digits_value(s) * 10 + digit_value(c),
{
    assert(s.push(c).drop_last() =~= s);
}

/// The value of a run never falls when more digits follow it.
pub proof fn lemma_digits_grow(s: Seq<char>, t: Seq<char>)
    ensures
        digits_value(s) <= digits_value(s + t),
    decreases t.len(),
{
    if t.len() == 0 {
        assert(s + t =~= s);
    } else {
        lemma_digits_grow(s, t.drop_last());
        assert((s + t).drop_last() =~= s + t.drop_last());
    }
}

/// The digit run from `from` ends inside the text, covers only digits, and
/// stops at the end or at a character that is no digit.
pub proof fn lemma_digit_run(s: Seq<char>, from: int)
    requires
        0 <= from <= s.len(),
    ensures
        0 <= digit_run(s, from) <= s.len() - from,
        forall|i: int| from <= i < from + digit_run(s, from) ==> is_digit(#[trigger] s[i]),
        from + digit_run(s, from) < s.len() ==> !is_digit(s[from + digit_run(s, from)]),
    decreases s.len() - from,
{
    if from < s.len() && is_digit(s[from]) {
        lemma_digit_run(s, from + 1);
    }
}

/// Whether the character is a decimal digit.
fn is_digit_char(c: char) -> (r: bool)
    ensures
        r == is_digit(c),
{
    '0' <= c && c <= '9'
}

/// Carries on the value `acc` of the digits in `prefix` with the digits of
/// `s` from `from` up to `to`. Nothing comes back where the value outgrows `u64`.
fn extend_value(acc: u64, s: &Vec<char>, from: usize, to: usize, Ghost(prefix): Ghost<
    Seq<char>,
>) -> (r: Option<u64>)
    requires
        acc == digits_value(prefix),
        from <= to <= s.len(),
        forall|k: int| from <= k < to ==> is_digit(#[trigger] s@[k]),
    ensures
        match r {
            Some(v) => v == digits_value(prefix + s@.subrange(from as int, to as int)),
            None => digits_value(prefix + s@.subrange(from as int, to as int)) > u64::MAX,
        },
{
    let mut acc: u64 = acc;
    let mut i: usize = from;
    assert(prefix + s@.subrange(from as int, from as int) =~= prefix);
    while i < to
        invariant
            from <= i <= to <= s.len(),
            forall|k: int| from <= k < to ==> is_digit(#[trigger] s@[k]),
            acc == digits_value(prefix + s@.subrange(from as int, i as int)),
        decreases to - i,
    {
        let c: char = s[i];
        assert(is_digit(s@[i as int]));
        let d: u64 = ((c as u8) - 48) as u64;
        proof {
            let before = prefix + s@.subrange(from as int, i as int);
            let upto = prefix + s@.subrange(from as int, i + 1);
            assert(before.push(c) =~= upto);
            lemma_digits_push(before, c);
            assert(upto + s@.subrange(i + 1, to as int) =~= prefix + s@.subrange(
                from as int,
                to as int,
            ));
            lemma_digits_grow(upto, s@.subrange(i + 1, to as int));
        }
        if acc > (u64::MAX - d) / 10 {
            return None;
        }
        acc = acc * 10 + d;
        i += 1;
    }
    Some(acc)
}

/// Counts the digits at the start of `body`.
fn scan_digits(body: &Vec<char>) -> (r: usize)
    ensures
        r == digit_run(body@, 0),
        r <= body.len(),
{
    let n: usize = body.len();
    let mut i: usize = 0;
    while i < n && is_digit_char(body[i])
        invariant
            i <= n,
            n == body.len(),
            digit_run(body@, 0) == i + digit_run(body@, i as int),
        decreases n - i,
    {
        i += 1;
    }
    i
}

/// Whether only digits stand in `body` from `from` on.
fn only_digits_from(body: &Vec<char>, from: usize) -> (r: bool)
    requires
        from <= body.len(),
    ensures
        r == all_digits(body@.skip(from as int)),
{
    let n: usize = body.len();
    let ghost tail = body@.skip(from as int);
    let mut j: usize = from;
    while j < n
        invariant
            from <= j <= n,
            n == body.len(),
            tail == body@.skip(from as int),
            forall|k: int| 0 <= k < j - from ==> is_digit(#[trigger] tail[k]),
        decreases n - j,
    {
        if !is_digit_char(body[j]) {
            assert(!is_digit(tail[j - from]));
            return false;
        }
        j += 1;
    }
    true
}

/// Reads a literal that has no sign: the digits without the point, and the
/// number of digits after the point.
fn parse_unsigned(body: &Vec<char>) -> (r: Option<(u64, u8)>)
    ensures
        r == lex_unsigned(body@),
{
    let n: usize = body.len();
    let end: usize = scan_digits(body);
    let ghost whole = body@.take(end as int);
    let ghost rest = body@.skip(end as int);
    proof {
        lemma_digit_run(body@, 0);
        assert(whole =~= body@.subrange(0, end as int));
        assert(Seq::<char>::empty() + whole =~= whole);
    }
    if end == n {
        if end == 0 {
            return None;
        }
        return match extend_value(0, body, 0, end, Ghost(Seq::empty())) {
            Some(v) => Some((v, 0u8)),
            None => None,
        };
    }
    if body[end] != '.' {
        return None;
    }
    let after: usize = end + 1;
    let count: usize = n - after;
    if count == 0 || count > 255 {
        return None;
    }
    let ghost fraction = rest.skip(1);
    assert(fraction =~= body@.skip(after as int));
    assert(fraction =~= body@.subrange(after as int, n as int));
    if !only_digits_from(body, after) {
        return None;
    }
    proof {
        lemma_digits_grow(whole, fraction);
        assert forall|k: int| after <= k < n implies is_digit(#[trigger] body@[k]) by {
            assert(is_digit(fraction[k - after]));
        }
    }
    match extend_value(0, body, 0, end, Ghost(Seq::empty())) {
        None => None,
        Some(a) => match extend_value(a, body, after, n, Ghost(whole)) {
            None => None,
            Some(v) => Some((v, count as u8)),
        },
    }
}

/// Reads a decimal literal. The result is the number that the text denotes,
/// or nothing where the text is no literal or its digits do not fit.
pub fn parse_decimal(text: &str) -> (r: Option<Decimal>)
    ensures
        r == lex_decimal(text@),
{
    let mut s: Vec<char> = chars_of(text);
    let negative: bool = s.len() > 0 && s[0] == '-';
    if s.len() > 0 && (s[0] == '+' || s[0] == '-') {
        s.remove(0);
        assert(s@ =~= unsigned_part(text@));
    }
    match parse_unsigned(&s) {
        Some((mantissa, scale)) => Some(Decimal { negative, mantissa, scale }),
        None => None,
    }
}

/// The digit that denotes a number below ten.
pub open spec fn digit_char(d: nat) -> char {
    ((48 + d) as u8) as char
}

/// The digits of a number, most significant first, with no leading zero
/// but for zero itself.
pub open spec fn nat_digits(n: nat) -> Seq<char>
    decreases n,
{
    if n < 10 {
        seq![digit_char(n)]
    } else {
        nat_digits(n / 10).push(digit_char(n % 10))
    }
}

/// A run of zeros.
pub open spec fn zeros(count: nat) -> Seq<char> {
    Seq::new(count, |i: int| '0')
}

/// The digits of a number, with zeros put in front until there are `width` of them.
pub open spec fn padded_digits(n: nat, width: nat) -> Seq<char> {
    let ds = nat_digits(n);
    if ds.len() >= width {
        ds
    } else {
        zeros((width - ds.len()) as nat) + ds
    }
}

/// The canonical text of a number: a minus sign where it is negative, the
/// digits before the point (at least one), and, where the scale is not
/// zero, a point and exactly `scale` digits.
pub open spec fn decimal_text(d: Decimal) -> Seq<char> {
    let ds = padded_digits(d.mantissa as nat, (d.scale + 1) as nat);
    let cut = ds.len() - d.scale;
    let sign = if d.negative {
        seq!['-']
    } else {
        Seq::<char>::empty()
    };
    if d.scale == 0 {
        sign + ds
    } else {
        sign + ds.take(cut) + seq!['.'] + ds.skip(cut)
    }
}

/// The digits of a number are digits, and denote the number.
pub proof fn lemma_nat_digits(n: nat)
    ensures
        nat_digits(n).len() >= 1,
        all_digits(nat_digits(n)),
        digits_value(nat_digits(n)) == n,
    decreases n,
{
    if n < 10 {
        let s = seq![digit_char(n)];
        assert(s.drop_last() =~= Seq::<char>::empty());
        assert(digits_value(s.drop_last()) == 0);
        assert(s.last() == digit_char(n));
    } else {
        lemma_nat_digits(n / 10);
        lemma_digits_push(nat_digits(n / 10), digit_char(n % 10));
    }
}

/// Zeros in front of a run of digits do not change what it denotes.
pub proof fn lemma_leading_zeros(count: nat, s: Seq<char>)
    ensures
        digits_value(zeros(count) + s) == digits_value(s),
        all_digits(s) ==> all_digits(zeros(count) + s),
    decreases s.len(),
{
    if s.len() == 0 {
        assert(zeros(count) + s =~= zeros(count));
        lemma_zeros_value(count);
    } else {
        lemma_leading_zeros(count, s.drop_last());
        assert((zeros(count) + s).drop_last() =~= zeros(count) + s.drop_last());
    }
}

/// A run of zeros denotes zero.
proof fn lemma_zeros_value(count: nat)
    ensures
        digits_value(zeros(count)) == 0,
    decreases count,
{
    if count > 0 {
        lemma_zeros_value((count - 1) as nat);
        assert(zeros(count).drop_last() =~= zeros((count - 1) as nat));
    }
}

/// Padded digits are digits, at least `width` of them, and denote the number.
pub proof fn lemma_padded_digits(n: nat, width: nat)
    ensures
        padded_digits(n, width).len() >= width,
        padded_digits(n, width).len() >= 1,
        all_digits(padded_digits(n, width)),
        digits_value(padded_digits(n, width)) == n,
{
    lemma_nat_digits(n);
    let ds = nat_digits(n);
    if ds.len() < width {
        lemma_leading_zeros((width - ds.len()) as nat, ds);
    }
}

/// Where digits are followed by nothing or by a character that is no
/// digit, the digit run of the whole is exactly those digits.
pub proof fn lemma_digit_run_of_prefix(a: Seq<char>, b: Seq<char>, from: int)
    requires
        all_digits(a),
        b.len() == 0 || !is_digit(b[0]),
        0 <= from <= a.len(),
    ensures
        digit_run(a + b, from) == a.len() - from,
    decreases a.len() - from,
{
    if from < a.len() {
        assert((a + b)[from] == a[from]);
        lemma_digit_run_of_prefix(a, b, from + 1);
    } else if b.len() > 0 {
        assert((a + b)[from] == b[0]);
    }
}

/// A run of digits that fits is a literal without sign and without fraction.
proof fn lemma_lex_whole(ds: Seq<char>)
    requires
        all_digits(ds),
        ds.len() >= 1,
        digits_value(ds) <= u64::MAX,
    ensures
        lex_unsigned(ds) == Some((digits_value(ds) as u64, 0u8)),
{
    lemma_digit_run_of_prefix(ds, Seq::empty(), 0);
    assert(ds + Seq::<char>::empty() =~= ds);
    assert(ds.take(ds.len() as int) =~= ds);
    assert(ds.skip(ds.len() as int) =~= Seq::<char>::empty());
}

/// Digits, a point and more digits are a literal without sign, where the
/// digits fit.
proof fn lemma_lex_fraction(whole: Seq<char>, fraction: Seq<char>)
    requires
        all_digits(whole),
        all_digits(fraction),
        1 <= fraction.len() <= 255,
        digits_value(whole + fraction) <= u64::MAX,
    ensures
        lex_unsigned(whole + (seq!['.'] + fraction)) == Some(
            (digits_value(whole + fraction) as u64, fraction.len() as u8),
        ),
{
    let tail = seq!['.'] + fraction;
    let body = whole + tail;
    assert(tail[0] == '.');
    lemma_digit_run_of_prefix(whole, tail, 0);
    assert(digit_run(body, 0) == whole.len());
    assert(body.take(whole.len() as int) =~= whole);
    assert(body.skip(whole.len() as int) =~= tail);
    assert(tail.skip(1) =~= fraction);
    assert(tail.len() == fraction.len() + 1);
}

/// A minus sign in front of a literal negates it; a literal that starts
/// with a digit or a point has no sign.
proof fn lemma_lex_sign(negative: bool, body: Seq<char>)
    requires
        body.len() > 0,
        is_digit(body[0]) || body[0] == '.',
    ensures
        lex_decimal(
            (if negative {
                seq!['-']
            } else {
                Seq::<char>::empty()
            }) + body,
        ) == match lex_unsigned(body) {
            Some((mantissa, scale)) => Some(Decimal { negative, mantissa, scale }),
            None => None,
        },
{
    if negative {
        let text = seq!['-'] + body;
        assert(text[0] == '-');
        assert(text.skip(1) =~= body);
    } else {
        let text = Seq::<char>::empty() + body;
        assert(text =~= body);
    }
}

/// Reading the canonical text of a number gives the number back.
pub proof fn law_decimal_round_trip(d: Decimal)
    ensures
        lex_decimal(decimal_text(d)) == Some(d),
{
    let ds = padded_digits(d.mantissa as nat, (d.scale + 1) as nat);
    lemma_padded_digits(d.mantissa as nat, (d.scale + 1) as nat);
    let cut = ds.len() - d.scale;
    let sign = if d.negative {
        seq!['-']
    } else {
        Seq::<char>::empty()
    };
    assert(is_digit(ds[0]));
    if d.scale == 0 {
        lemma_lex_whole(ds);
        lemma_lex_sign(d.negative, ds);
    } else {
        let whole = ds.take(cut);
        let fraction = ds.skip(cut);
        let body = whole + (seq!['.'] + fraction);
        assert(whole + fraction =~= ds);
        assert(all_digits(whole));
        assert(all_digits(fraction)) by {
            assert forall|i: int| 0 <= i < fraction.len() implies is_digit(#[trigger] fraction[i]) by {
                assert(fraction[i] == ds[i + cut]);
            }
        }
        lemma_lex_fraction(whole, fraction);
        assert(body[0] == whole[0]);
        assert(whole[0] == ds[0]);
        lemma_lex_sign(d.negative, body);
        assert(decimal_text(d) =~= sign + body);
    }
}

/// Appends the digits of `n` to `out`.
fn push_digits(n: u64, out: &mut Vec<char>)
    ensures
        final(out)@ == old(out)@ + nat_digits(n as nat),
    decreases n,
{
    if n >= 10 {
        push_digits(n / 10, out);
    }
    let d: u8 = (n % 10) as u8;
    out.push((d + 48) as char);
    proof {
        if n >= 10 {
            assert(old(out)@ + nat_digits(n as nat) =~= (old(out)@ + nat_digits((n / 10) as nat)).push(
                digit_char((n % 10) as nat),
            ));
        } else {
            assert(old(out)@ + nat_digits(n as nat) =~= old(out)@.push(digit_char(n as nat)));
        }
    }
}

/// The digits of `n`, with zeros in front until there are `width` of them.
fn padded(n: u64, width: usize) -> (r: Vec<char>)
    ensures
        r@ == padded_digits(n as nat, width as nat),
{
    let mut ds: Vec<char> = Vec::new();
    push_digits(n, &mut ds);
    assert(ds@ =~= nat_digits(n as nat));
    if ds.len() >= width {
        return ds;
    }
    let missing: usize = width - ds.len();
    let mut r: Vec<char> = Vec::new();
    let mut i: usize = 0;
    while i < missing
        invariant
            i <= missing,
            r@ == zeros(i as nat),
        decreases missing - i,
    {
        r.push('0');
        assert(zeros(i as nat).push('0') =~= zeros((i + 1) as nat));
        i += 1;
    }
    let mut j: usize = 0;
    while j < ds.len()
        invariant
            j <= ds.len(),
            r@ == zeros(missing as nat) + ds@.take(j as int),
        decreases ds.len() - j,
    {
        r.push(ds[j]);
        assert((zeros(missing as nat) + ds@.take(j as int)).push(ds@[j as int]) =~= zeros(
            missing as nat,
        ) + ds@.take(j + 1));
        j += 1;
    }
    assert(ds@.take(ds.len() as int) =~= ds@);
    r
}

impl Decimal {
    /// The canonical text of the number.
    pub fn to_text(&self) -> (r: String)
        ensures
            r@ == decimal_text(*self),
            lex_decimal(r@) == Some(*self),
    {
        let scale: usize = self.scale as usize;
        let ds: Vec<char> = padded(self.mantissa, scale + 1);
        proof {
            lemma_padded_digits(self.mantissa as nat, (self.scale + 1) as nat);
            law_decimal_round_trip(*self);
        }
        let cut: usize = ds.len() - scale;
        let mut out: Vec<char> = Vec::new();
        if self.negative {
            out.push('-');
        }
        let ghost sign = out@;
        let mut i: usize = 0;
        while i < ds.len()
            invariant
                i <= ds.len(),
                cut <= ds.len(),
                cut == ds.len() - scale,
                i <= cut ==> out@ == sign + ds@.take(i as int),
                i > cut ==> out@ == sign + ds@.take(cut as int) + seq!['.'] + ds@.subrange(
                    cut as int,
                    i as int,
                ),
            decreases ds.len() - i,
        {
            if i == cut {
                out.push('.');
            }
            out.push(ds[i]);
            proof {
                if i < cut {
                    assert(out@ =~= sign + ds@.take(i + 1));
                } else {
                    assert(out@ =~= sign + ds@.take(cut as int) + seq!['.'] + ds@.subrange(
                        cut as int,
                        i + 1,
                    ));
                }
            }
            i += 1;
        }
        proof {
            if scale == 0 {
                assert(ds@.take(ds.len() as int) =~= ds@);
            } else {
                assert(ds@.subrange(cut as int, ds.len() as int) =~= ds@.skip(cut as int));
            }
        }
        string_from_chars(&out)
    }

    /// Whether the number is zero or above.
    pub fn non_negative(&self) -> (r: bool)
        ensures
            r == self.is_non_negative(),
    {
        !self.negative || self.mantissa == 0
    }
}

} // verus!
