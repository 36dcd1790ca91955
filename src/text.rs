use vstd::prelude::*;

verus! {

/// The decimal digit character of a value below ten.
pub open spec fn digit_char(d: nat) -> char {
    ('0' as u32 + d) as char
}

/// The decimal digits of a natural number, without leading zeros.
pub open spec fn nat_text(n: nat) -> Seq<char>
    decreases n,
{
    if n < 10 {
        seq![digit_char(n)]
    } else {
        nat_text(n / 10).push(digit_char(n % 10))
    }
}

/// The decimal text of an integer, a minus sign before a negative one.
pub open spec fn int_text(i: int) -> Seq<char> {
    if i < 0 {
        seq!['-'] + nat_text((-i) as nat)
    } else {
        nat_text(i as nat)
    }
}

/// `d` with zeros put in front until it is `w` characters long.
pub open spec fn pad_zeros(d: Seq<char>, w: nat) -> Seq<char> {
    if d.len() < w {
        Seq::new((w - d.len()) as nat, |i: int| '0') + d
    } else {
        d
    }
}

/// `f` without its trailing zeros.
pub open spec fn strip_zeros(f: Seq<char>) -> Seq<char>
    decreases f.len(),
{
    if f.len() > 0 && f.last() == '0' {
        strip_zeros(f.drop_last())
    } else {
        f
    }
}

/// The shortest decimal text of `m / 10^s`: no trailing zeros after the point, and
/// no point when the value is whole.
pub open spec fn scaled_text(m: int, s: nat) -> Seq<char> {
    let d = pad_zeros(nat_text(if m < 0 { -m } else { m } as nat), s + 1);
    let ip = d.take(d.len() - s);
    let fp = strip_zeros(d.skip(d.len() - s));
    (if m < 0 { seq!['-'] } else { Seq::empty() }) + ip + (if fp.len() == 0 {
        Seq::empty()
    } else {
        seq!['.'] + fp
    })
}

pub open spec fn is_digit(c: char) -> bool {
    '0' <= c && c <= '9'
}

pub open spec fn all_digits(s: Seq<char>) -> bool {
    forall|i: int| 0 <= i < s.len() ==> is_digit(#[trigger] s[i])
}

/// The natural number that a sequence of decimal digits denotes.
pub open spec fn digits_value(s: Seq<char>) -> nat
    decreases s.len(),
{
    if s.len() == 0 {
        0
    } else {
        digits_value(s.drop_last()) * 10 + (s.last() as u32 - '0' as u32) as nat
    }
}

pub open spec fn signed(neg: bool, v: nat) -> int {
    if neg {
        -v
    } else {
        v as int
    }
}

/// `b` is digits, a point, digits, with the point at `k`.
pub open spec fn point_at(b: Seq<char>, k: int) -> bool {
    0 < k < b.len() - 1 && b[k] == '.' && all_digits(b.take(k)) && all_digits(b.skip(k + 1))
}

/// The shortest decimal text of `m * 10^e`, written out in full without an exponent.
pub open spec fn decimal_text(m: int, e: int) -> Seq<char> {
    if e >= 0 {
        if m == 0 {
            seq!['0']
        } else {
            int_text(m) + Seq::new(e as nat, |i: int| '0')
        }
    } else {
        scaled_text(m, (-e) as nat)
    }
}

/// Whether a decimal text starts with a minus sign.
pub open spec fn text_negative(t: Seq<char>) -> bool {
    t.len() > 0 && t[0] == '-'
}

/// A decimal text without its minus sign.
pub open spec fn text_body(t: Seq<char>) -> Seq<char> {
    if text_negative(t) {
        t.skip(1)
    } else {
        t
    }
}

/// The mantissa and scale of the digits of a decimal text, with or without a point.
pub open spec fn body_value(b: Seq<char>) -> Option<(nat, nat)> {
    if b.len() > 0 && all_digits(b) {
        Some((digits_value(b), 0nat))
    } else if exists|k: int| point_at(b, k) {
        let k = choose|k: int| point_at(b, k);
        Some((digits_value(b.take(k) + b.skip(k + 1)), (b.len() - k - 1) as nat))
    } else {
        None
    }
}

/// The mantissa and scale of a plain decimal text: an optional minus sign, then
/// digits, optionally followed by a point and more digits.
pub open spec fn decimal_of_text(t: Seq<char>) -> Option<(int, nat)> {
    match body_value(text_body(t)) {
        Some((v, s)) => Some((signed(text_negative(t), v), s)),
        None => None,
    }
}

/// The characters of `input`, in order.
pub fn chars_of(input: &str) -> (r: Vec<char>)
    ensures
        r@ == input@,
{
    let n = input.unicode_len();
    let mut cs: Vec<char> = Vec::new();
    let mut i: usize = 0;
    while i < n
        invariant
            n == input@.len(),
            0 <= i <= n,
            cs@ == input@.take(i as int),
        decreases n - i,
    {
        cs.push(input.get_char(i));
        proof {
            assert(input@.take(i + 1) =~= input@.take(i as int).push(input@[i as int]));
        }
        i = i + 1;
    }
    proof {
        assert(input@.take(n as int) =~= input@);
    }
    cs
}

/// Relies on String::push: the character goes at the end.
#[verifier::external_body]
pub fn push_char(out: &mut String, c: char)
    ensures
        final(out)@ == old(out)@.push(c),
{
    out.push(c)
}

/// Whether two texts are the same.
pub fn same_text(s: &str, t: &str) -> (r: bool)
    ensures
        r == (s@ == t@),
{
    let a = String::from_str(s);
    let b = String::from_str(t);
    a == b
}

pub fn push_str(out: &mut String, s: &str)
    ensures
        final(out)@ == old(out)@ + s@,
{
    out.append(s);
}

fn digit_char_exec(d: u64) -> (c: char)
    requires
        d < 10,
    ensures
        c == digit_char(d as nat),
{
    if d == 0 {
        '0'
    } else if d == 1 {
        '1'
    } else if d == 2 {
        '2'
    } else if d == 3 {
        '3'
    } else if d == 4 {
        '4'
    } else if d == 5 {
        '5'
    } else if d == 6 {
        '6'
    } else if d == 7 {
        '7'
    } else if d == 8 {
        '8'
    } else {
        '9'
    }
}

/// The decimal digits of `n`.
pub fn nat_digits(n: u64) -> (r: Vec<char>)
    ensures
        r@ == nat_text(n as nat),
    decreases n,
{
    if n < 10 {
        let mut v: Vec<char> = Vec::new();
        v.push(digit_char_exec(n));
        proof {
            assert(v@ =~= seq![digit_char(n as nat)]);
        }
        v
    } else {
        let mut v = nat_digits(n / 10);
        v.push(digit_char_exec(n % 10));
        v
    }
}

pub fn push_chars(out: &mut String, s: &Vec<char>)
    ensures
        final(out)@ == old(out)@ + s@,
{
    let mut i: usize = 0;
    while i < s.len()
        invariant
            0 <= i <= s.len(),
            out@ == old(out)@ + s@.take(i as int),
        decreases s.len() - i,
    {
        push_char(out, s[i]);
        proof {
            assert(s@.take(i + 1) =~= s@.take(i as int).push(s@[i as int]));
        }
        i = i + 1;
    }
    proof {
        assert(s@.take(s.len() as int) =~= s@);
    }
}

pub fn push_nat(out: &mut String, n: u64)
    ensures
        final(out)@ == old(out)@ + nat_text(n as nat),
{
    let d = nat_digits(n);
    push_chars(out, &d);
}

pub fn push_int(out: &mut String, i: i64)
    ensures
        final(out)@ == old(out)@ + int_text(i as int),
{
    if i < 0 {
        push_char(out, '-');
        let a: u64 = if i == i64::MIN {
            0x8000_0000_0000_0000u64
        } else {
            (-i) as u64
        };
        push_nat(out, a);
        proof {
            assert(out@ =~= old(out)@ + int_text(i as int));
        }
    } else {
        push_nat(out, i as u64);
    }
}

/// Writes the characters of `d` from `from` up to `to`.
pub fn push_range(out: &mut String, d: &Vec<char>, from: usize, to: usize)
    requires
        from <= to <= d.len(),
    ensures
        final(out)@ == old(out)@ + d@.subrange(from as int, to as int),
{
    let mut u: usize = from;
    while u < to
        invariant
            from <= u <= to,
            to <= d.len(),
            out@ == old(out)@ + d@.subrange(from as int, u as int),
        decreases to - u,
    {
        push_char(out, d[u]);
        proof {
            assert(d@.subrange(from as int, u + 1) =~= d@.subrange(from as int, u as int).push(
                d@[u as int],
            ));
        }
        u = u + 1;
    }
}

fn padded_digits(a: u64, w: usize) -> (r: Vec<char>)
    ensures
        r@ == pad_zeros(nat_text(a as nat), w as nat),
{
    let digits = nat_digits(a);
    let need: usize = if digits.len() < w {
        w - digits.len()
    } else {
        0
    };
    let mut d: Vec<char> = Vec::new();
    let mut z: usize = 0;
    while z < need
        invariant
            0 <= z <= need,
            d@ =~= Seq::new(z as nat, |i: int| '0'),
        decreases need - z,
    {
        d.push('0');
        z = z + 1;
    }
    let ghost zeros = d@;
    let mut j: usize = 0;
    while j < digits.len()
        invariant
            0 <= j <= digits.len(),
            d@ == zeros + digits@.take(j as int),
        decreases digits.len() - j,
    {
        d.push(digits[j]);
        proof {
            assert(digits@.take(j + 1) =~= digits@.take(j as int).push(digits@[j as int]));
        }
        j = j + 1;
    }
    proof {
        assert(digits@.take(digits.len() as int) =~= digits@);
        if digits.len() >= w {
            assert(d@ =~= digits@);
        }
    }
    d
}

fn end_of_fraction(d: &Vec<char>, cut: usize) -> (e: usize)
    requires
        cut <= d.len(),
    ensures
        cut <= e <= d.len(),
        d@.subrange(cut as int, e as int) == strip_zeros(d@.skip(cut as int)),
{
    let n = d.len();
    let mut e = n;
    proof {
        assert(d@.subrange(cut as int, n as int) =~= d@.skip(cut as int));
    }
    while e > cut && d[e - 1] == '0'
        invariant
            cut <= e <= n,
            n == d.len(),
            strip_zeros(d@.subrange(cut as int, e as int)) == strip_zeros(d@.skip(cut as int)),
        decreases e,
    {
        proof {
            assert(d@.subrange(cut as int, e as int).drop_last() =~= d@.subrange(
                cut as int,
                e - 1,
            ));
        }
        e = e - 1;
    }
    e
}

/// Writes the shortest decimal text of `m * 10^e`.
pub fn push_decimal(out: &mut String, m: i64, e: i32)
    ensures
        final(out)@ == old(out)@ + decimal_text(m as int, e as int),
{
    if e >= 0 {
        if m == 0 {
            push_char(out, '0');
        } else {
            push_int(out, m);
            let ghost mid = out@;
            let mut k: i32 = 0;
            while k < e
                invariant
                    0 <= k <= e,
                    out@ == mid + Seq::new(k as nat, |i: int| '0'),
                decreases e - k,
            {
                push_char(out, '0');
                proof {
                    assert(Seq::new((k + 1) as nat, |i: int| '0') =~= Seq::new(k as nat, |i: int| '0').push('0'));
                }
                k = k + 1;
            }
            proof {
                assert(out@ =~= old(out)@ + decimal_text(m as int, e as int));
            }
        }
    } else {
        let s: usize = (-(e as i64)) as usize;
        push_scaled(out, m, s);
    }
}

/// Writes the shortest decimal text of `m / 10^s`.
fn push_scaled(out: &mut String, m: i64, s: usize)
    requires
        s <= 0x8000_0000,
    ensures
        final(out)@ == old(out)@ + scaled_text(m as int, s as nat),
{
    let a: u64 = if m == i64::MIN {
        0x8000_0000_0000_0000u64
    } else if m < 0 {
        (-m) as u64
    } else {
        m as u64
    };
    let d = padded_digits(a, s + 1);
    let cut = d.len() - s;
    let e = end_of_fraction(&d, cut);
    let ghost start = out@;
    if m < 0 {
        push_char(out, '-');
    }
    let ghost mid = out@;
    push_range(out, &d, 0, cut);
    let ghost mid2 = out@;
    if e > cut {
        push_char(out, '.');
        push_range(out, &d, cut, e);
    }
    proof {
        assert(d@.subrange(0, cut as int) =~= d@.take(cut as int));
        let sign: Seq<char> = if m < 0 { seq!['-'] } else { Seq::empty() };
        assert(mid =~= start + sign);
        let fp = d@.subrange(cut as int, e as int);
        let tail: Seq<char> = if fp.len() == 0 { Seq::empty() } else { seq!['.'] + fp };
        assert(out@ =~= mid2 + tail);
        assert(out@ =~= start + sign + d@.take(cut as int) + tail);
    }
}

} // verus!
