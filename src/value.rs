use crate::env::Environment;
use crate::vars::Variable;
use crate::text::{
    all_digits, body_value, chars_of, decimal_of_text, signed, text_body, decimal_text, digits_value, int_text, is_digit, nat_text,
    point_at, push_char, push_decimal, push_int, push_nat, push_str,
};
use vstd::prelude::*;

verus! {

/// A runtime value.
pub enum Value {
    Boolean(bool),
    Character(char),
    Null,
    Pair(Box<Pair>),
    Procedure(Box<Procedure>),
    Symbol(String),
    Bytevector(Vec<u8>),
    EofObject,
    Number(Number),
    Port(Box<Port>),
    String(String),
    Vector(Vec<Value>),
}

/// A decimal number: `mantissa * 10^exponent`.
#[derive(Clone, Copy, Debug, PartialEq, Eq, Structural)]
pub struct Decimal {
    pub mantissa: i64,
    pub exponent: i32,
}

/// A real number: a decimal, or one of the values of floating point that no decimal
/// stands for.
#[derive(Clone, Copy, Debug, PartialEq, Eq, Structural)]
pub enum Real {
    Finite(Decimal),
    NegativeZero,
    Infinity,
    NegativeInfinity,
    NaN,
}

proof fn lemma_point_unique(b: Seq<char>, k: int, j: int)
    requires
        point_at(b, k),
        point_at(b, j),
    ensures
        k == j,
{
    if j < k {
        assert(b.take(k)[j] == b[j]);
    } else if k < j {
        assert(b.take(j)[k] == b[k]);
    }
}

proof fn lemma_digits_step(s: Seq<char>, i: int)
    requires
        0 <= i < s.len(),
    ensures
        digits_value(s.take(i + 1)) == digits_value(s.take(i)) * 10 + (s[i] as u32 - '0' as u32) as nat,
{
    assert(s.take(i + 1).drop_last() =~= s.take(i));
}

const MANTISSA_LIMIT: u64 = 0x7FFF_FFFF_FFFF_FFFF;

impl Decimal {
    /// The same mantissa with `by` added to the exponent, when the sum fits.
    pub fn shifted(self, by: i32) -> (r: Option<Decimal>)
        ensures
            r matches Some(d) ==> d.mantissa == self.mantissa && d.exponent == self.exponent + by,
            i32::MIN <= self.exponent + by <= i32::MAX ==> r is Some,
    {
        let e = self.exponent as i64 + by as i64;
        if e < i32::MIN as i64 || e > i32::MAX as i64 {
            None
        } else {
            Some(Decimal { mantissa: self.mantissa, exponent: e as i32 })
        }
    }

    /// Reads a plain decimal text (an optional minus sign, digits, and optionally a
    /// point followed by digits) as the exact decimal it denotes; `None` when the text
    /// has another shape, when the digits overflow the mantissa, or when the digits
    /// after the point do not fit the exponent.
    pub fn from_text(t: &str) -> (r: Option<Decimal>)
        ensures
            r matches Some(d) ==> decimal_of_text(t@) == Some(
                (d.mantissa as int, (-d.exponent) as nat),
            ),
            decimal_of_text(t@) matches Some((m, s)) && -0x7FFF_FFFF_FFFF_FFFF <= m
                <= 0x7FFF_FFFF_FFFF_FFFF && s <= 0x7FFF_FFFF ==> r is Some,
    {
        let cs = chars_of(t);
        let n = cs.len();
        let neg = n > 0 && cs[0] == '-';
        let from: usize = if neg {
            1
        } else {
            0
        };
        let ghost b = cs@.skip(from as int);
        proof {
            assert(b =~= if neg {
                t@.skip(1)
            } else {
                t@
            });
        }
        let bl = n - from;
        let mut i: usize = from;
        let mut first_point: Option<usize> = None;
        let mut digits_only = true;
        while i < n
            invariant
                from <= i <= n,
                n == cs.len(),
                b == cs@.skip(from as int),
                first_point is None ==> digits_only == all_digits(b.take(i - from)),
                first_point is None ==> forall|j: int| 0 <= j < i - from ==> b[j] != '.',
                first_point matches Some(k) ==> from <= k < i && cs@[k as int] == '.' && !digits_only
                    && forall|j: int| 0 <= j < k - from ==> b[j] != '.',
            decreases n - i,
        {
            let c = cs[i];
            proof {
                assert(b.take(i + 1 - from) =~= b.take(i - from).push(b[i - from]));
                assert(b[i - from] == c);
                lemma_all_digits_push(b.take(i - from), c);
            }
            if c == '.' {
                if first_point.is_none() {
                    first_point = Some(i);
                }
                digits_only = false;
            } else if !('0' <= c && c <= '9') {
                digits_only = false;
            }
            i = i + 1;
        }
        proof {
            assert(b.take(bl as int) =~= b);
        }
        if bl > 0 && digits_only {
            let whole = slice(&cs, from, n);
            proof {
                assert(whole@ =~= b);
            }
            return from_parts(neg, &whole, 0);
        }
        proof {
            if first_point is None {
                assert forall|k: int| !point_at(b, k) by {
                    if 0 < k < b.len() - 1 {
                        assert(b[k] != '.');
                    }
                }
            }
        }
        let k = match first_point {
            Some(k) => k,
            None => {
                return None;
            },
        };
        let kb = k - from;
        proof {
            assert(b[kb as int] == cs@[k as int]);
            assert(!all_digits(b)) by {
                assert(!is_digit(b[kb as int]));
            }
        }
        if kb == 0 || kb + 1 >= bl {
            proof {
                assert forall|j: int| !point_at(b, j) by {
                    if point_at(b, j) {
                        assert(b[kb as int] == '.');
                        assert(j <= kb) by {
                            if j > kb {
                                assert(b.take(j)[kb as int] == b[kb as int]);
                            }
                        }
                    }
                }
            }
            return None;
        }
        let int_part = slice(&cs, from, k);
        let frac_part = slice(&cs, k + 1, n);
        if !all_digits_exec(&int_part) || !all_digits_exec(&frac_part) {
            proof {
                assert(int_part@ =~= b.take(kb as int));
                assert(frac_part@ =~= b.skip(kb + 1));
                assert forall|j: int| !point_at(b, j) by {
                    if point_at(b, j) {
                        assert(j == kb) by {
                            if j > kb {
                                assert(b.take(j)[kb as int] == b[kb as int]);
                            }
                        }
                    }
                }
            }
            return None;
        }
        let scale_len = n - (k + 1);
        let mut all = int_part;
        let mut j: usize = 0;
        let ghost ip = all@;
        while j < frac_part.len()
            invariant
                0 <= j <= frac_part.len(),
                all@ == ip + frac_part@.take(j as int),
            decreases frac_part.len() - j,
        {
            all.push(frac_part[j]);
            proof {
                assert(frac_part@.take(j + 1) =~= frac_part@.take(j as int).push(frac_part@[j as int]));
            }
            j = j + 1;
        }
        proof {
            assert(frac_part@.take(frac_part.len() as int) =~= frac_part@);
            assert(ip =~= b.take(kb as int));
            assert(frac_part@ =~= b.skip(kb + 1));
            assert(all@ =~= b.take(kb as int) + b.skip(kb + 1));
            assert(text_body(t@) == b);
            assert forall|q: int| point_at(b, q) implies q == kb by {
                lemma_point_unique(b, q, kb as int);
            }
            assert(point_at(b, kb as int));
            assert(body_value(b) == Some((digits_value(all@), scale_len as nat)));
            assert forall|q: int| 0 <= q < all@.len() implies is_digit(#[trigger] all@[q]) by {
                if q < ip.len() {
                    assert(all@[q] == ip[q]);
                } else {
                    assert(all@[q] == frac_part@[q - ip.len()]);
                }
            }
        }
        from_parts(neg, &all, scale_len)
    }
}

/// The decimal with the given sign, digits and scale, when it fits.
fn from_parts(neg: bool, digits: &Vec<char>, scale: usize) -> (r: Option<Decimal>)
    requires
        all_digits(digits@),
    ensures
        r matches Some(d) ==> d.mantissa == signed(neg, digits_value(digits@)) && d.exponent
            == -scale,
        digits_value(digits@) <= MANTISSA_LIMIT && scale <= 0x7FFF_FFFF ==> r is Some,
{
    if scale > 0x7FFF_FFFF {
        return None;
    }
    match value_of_digits(digits) {
        Some(v) => {
            let m: i64 = if neg {
                -(v as i64)
            } else {
                v as i64
            };
            Some(Decimal { mantissa: m, exponent: -(scale as i32) })
        },
        None => None,
    }
}

fn slice(cs: &Vec<char>, from: usize, to: usize) -> (r: Vec<char>)
    requires
        from <= to <= cs.len(),
    ensures
        r@ == cs@.subrange(from as int, to as int),
{
    let mut v: Vec<char> = Vec::new();
    let mut i = from;
    while i < to
        invariant
            from <= i <= to,
            to <= cs.len(),
            v@ == cs@.subrange(from as int, i as int),
        decreases to - i,
    {
        v.push(cs[i]);
        proof {
            assert(cs@.subrange(from as int, i + 1) =~= cs@.subrange(from as int, i as int).push(
                cs@[i as int],
            ));
        }
        i = i + 1;
    }
    v
}

fn all_digits_exec(d: &Vec<char>) -> (r: bool)
    ensures
        r == all_digits(d@),
{
    let mut i: usize = 0;
    while i < d.len()
        invariant
            0 <= i <= d.len(),
            forall|j: int| 0 <= j < i ==> is_digit(#[trigger] d@[j]),
        decreases d.len() - i,
    {
        if !('0' <= d[i] && d[i] <= '9') {
            return false;
        }
        i = i + 1;
    }
    true
}

proof fn lemma_all_digits_push(s: Seq<char>, c: char)
    ensures
        all_digits(s.push(c)) == (all_digits(s) && is_digit(c)),
{
    if all_digits(s.push(c)) {
        assert(s.push(c)[s.len() as int] == c);
        assert forall|j: int| 0 <= j < s.len() implies is_digit(#[trigger] s[j]) by {
            assert(s.push(c)[j] == s[j]);
        }
    }
    if all_digits(s) && is_digit(c) {
        assert forall|j: int| 0 <= j < s.push(c).len() implies is_digit(#[trigger] s.push(c)[j]) by {
            if j < s.len() {
                assert(s.push(c)[j] == s[j]);
            }
        }
    }
}

proof fn lemma_digits_grow(s: Seq<char>, i: int)
    requires
        0 <= i <= s.len(),
    ensures
        digits_value(s.take(i)) <= digits_value(s),
    decreases s.len() - i,
{
    if i < s.len() {
        lemma_digits_grow(s, i + 1);
        lemma_digits_step(s, i);
    } else {
        assert(s.take(i) =~= s);
    }
}

/// The value of a run of digits, when it is at most the largest mantissa.
fn value_of_digits(d: &Vec<char>) -> (r: Option<u64>)
    requires
        all_digits(d@),
    ensures
        r matches Some(v) ==> v == digits_value(d@) && v <= MANTISSA_LIMIT,
        r is None ==> digits_value(d@) > MANTISSA_LIMIT,
{
    let mut acc: u64 = 0;
    let mut i: usize = 0;
    while i < d.len()
        invariant
            0 <= i <= d.len(),
            all_digits(d@),
            acc == digits_value(d@.take(i as int)),
            acc <= MANTISSA_LIMIT,
        decreases d.len() - i,
    {
        proof {
            lemma_digits_step(d@, i as int);
            assert(is_digit(d@[i as int]));
        }
        let x = (d[i] as u32 - '0' as u32) as u64;
        if acc > (MANTISSA_LIMIT - x) / 10 {
            proof {
                assert(acc * 10 + x > MANTISSA_LIMIT) by (nonlinear_arith)
                    requires
                        acc > (MANTISSA_LIMIT - x) / 10,
                        x <= 9,
                ;
                lemma_digits_grow(d@, i + 1);
            }
            return None;
        }
        proof {
            assert(acc * 10 + x <= MANTISSA_LIMIT) by (nonlinear_arith)
                requires
                    acc <= (MANTISSA_LIMIT - x) / 10,
                    x <= 9,
            ;
        }
        acc = acc * 10 + x;
        i = i + 1;
    }
    proof {
        assert(d@.take(d.len() as int) =~= d@);
    }
    Some(acc)
}

/// A number of the numeric tower.
#[derive(Clone, Copy, Debug, PartialEq, Eq, Structural)]
pub enum Number {
    Integer(i64),
    Real(Real),
    /// Not reduced to lowest terms; the sign goes with the numerator.
    Rational { numerator: i64, denominator: u64 },
    Complex { real: Real, imaginary: Real },
}

/// A procedure: the frame it captured, its parameter names and its body.
pub struct Procedure {
    pub env: Environment,
    pub params: Vec<String>,
    pub body: Vec<Value>,
}

/// A pair of values.
pub struct Pair {
    pub car: Value,
    pub cdr: Value,
}

/// A port; it has no behaviour yet.
pub struct Port;

pub open spec fn dec_text(d: Decimal) -> Seq<char> {
    decimal_text(d.mantissa as int, d.exponent as int)
}

/// The text of a real: the full decimal text of a decimal, and `-0`, `inf`, `-inf`
/// and `NaN` for the other values.
pub open spec fn real_text(r: Real) -> Seq<char> {
    match r {
        Real::Finite(d) => dec_text(d),
        Real::NegativeZero => "-0"@,
        Real::Infinity => "inf"@,
        Real::NegativeInfinity => "-inf"@,
        Real::NaN => "NaN"@,
    }
}

/// A real below zero; its text carries its own minus sign.
pub open spec fn is_negative(r: Real) -> bool {
    match r {
        Real::Finite(d) => d.mantissa < 0,
        Real::NegativeInfinity => true,
        _ => false,
    }
}

/// The text of a number.
pub open spec fn number_text(n: Number) -> Seq<char> {
    match n {
        Number::Integer(i) => int_text(i as int),
        Number::Real(r) => real_text(r),
        Number::Rational { numerator, denominator } => int_text(numerator as int) + "/"@
            + nat_text(denominator as nat),
        Number::Complex { real: re, imaginary: im } => real_text(re) + (if is_negative(im) {
            Seq::empty()
        } else {
            "+"@
        }) + real_text(im) + "i"@,
    }
}

/// Texts joined by a separator.
pub open spec fn join(s: Seq<Seq<char>>, sep: Seq<char>) -> Seq<char>
    decreases s.len(),
{
    if s.len() == 0 {
        Seq::empty()
    } else if s.len() == 1 {
        s[0]
    } else {
        join(s.drop_last(), sep) + sep + s.last()
    }
}

pub open spec fn byte_texts(b: Seq<u8>) -> Seq<Seq<char>> {
    b.map_values(|x: u8| nat_text(x as nat))
}

pub open spec fn string_views(s: Seq<String>) -> Seq<Seq<char>> {
    s.map_values(|x: String| x@)
}

/// A line break followed by the indent of a procedure body.
pub open spec fn line_break() -> Seq<char> {
    "\n    "@
}

/// The written form of a value.
pub open spec fn value_text(v: Value) -> Seq<char>
    decreases v,
{
    match v {
        Value::Boolean(b) => if b {
            "#t"@
        } else {
            "#f"@
        },
        Value::Character(c) => "#\\"@.push(c),
        Value::Null => "()"@,
        Value::Pair(p) => "("@ + value_text(p.car) + " . "@ + value_text(p.cdr) + ")"@,
        Value::Procedure(p) => "(lambda ("@ + join(string_views(p.params@), " "@) + ")"@
            + line_break() + lines_text(p.body@) + ")"@,
        Value::Symbol(s) => s@,
        Value::Bytevector(b) => "#u8("@ + join(byte_texts(b@), " "@) + ")"@,
        Value::EofObject => "#<eof>"@,
        Value::Number(n) => number_text(n),
        Value::Port(_) => "#<port>"@,
        Value::String(s) => "\""@ + s@ + "\""@,
        Value::Vector(items) => "#("@ + values_text(items@) + ")"@,
    }
}

/// The line that shows one binding of a captured frame.
pub open spec fn binding_line(v: Variable) -> Seq<char> {
    "; "@ + v.name@ + ": "@ + value_text(v.value)
}

pub open spec fn binding_lines(s: Seq<Variable>) -> Seq<Seq<char>> {
    s.map_values(|v: Variable| binding_line(v))
}

/// The debug form of a procedure: its written form with a line for each binding of
/// the frame it captured, before the body.
pub open spec fn procedure_debug_text(p: Procedure) -> Seq<char> {
    "(lambda ("@ + join(string_views(p.params@), " "@) + ")"@ + "\n"@ + join(
        binding_lines(p.env.bindings()),
        line_break(),
    ) + line_break() + lines_text(p.body@) + ")"@
}

/// The written forms of values, separated by single spaces.
pub open spec fn values_text(s: Seq<Value>) -> Seq<char>
    decreases s,
{
    if s.len() == 0 {
        Seq::empty()
    } else if s.len() == 1 {
        value_text(s[0])
    } else {
        values_text(s.drop_last()) + " "@ + value_text(s.last())
    }
}

/// The written forms of values, each followed by a line break and an indent.
pub open spec fn lines_text(s: Seq<Value>) -> Seq<char>
    decreases s,
{
    if s.len() == 0 {
        Seq::empty()
    } else {
        lines_text(s.drop_last()) + value_text(s.last()) + line_break()
    }
}


/// A pair is written as `(car . cdr)` at every depth, whatever its parts are.
pub proof fn lemma_pair_text(car: Value, cdr: Value)
    ensures
        value_text(Value::Pair(Box::new(Pair { car, cdr }))) == "("@ + value_text(car) + " . "@
            + value_text(cdr) + ")"@,
{
}

proof fn lemma_join_step(s: Seq<Seq<char>>, sep: Seq<char>, i: int)
    requires
        0 <= i < s.len(),
    ensures
        join(s.take(i + 1), sep) == if i == 0 {
            s[0]
        } else {
            join(s.take(i), sep) + sep + s[i]
        },
{
    assert(s.take(i + 1).drop_last() =~= s.take(i));
    assert(s.take(i + 1).last() == s[i]);
    assert(s.take(i + 1)[0] == s[0]);
}

fn write_names(out: &mut String, names: &Vec<String>)
    ensures
        final(out)@ == old(out)@ + join(string_views(names@), " "@),
{
    let ghost views = string_views(names@);
    let mut i: usize = 0;
    while i < names.len()
        invariant
            0 <= i <= names.len(),
            views == string_views(names@),
            out@ == old(out)@ + join(views.take(i as int), " "@),
        decreases names.len() - i,
    {
        if i > 0 {
            push_str(out, " ");
        }
        push_str(out, names[i].as_str());
        proof {
            lemma_join_step(views, " "@, i as int);
            assert(out@ =~= old(out)@ + join(views.take(i + 1), " "@));
        }
        i = i + 1;
    }
    proof {
        assert(views.take(names.len() as int) =~= views);
    }
}

fn write_bytes(out: &mut String, bytes: &Vec<u8>)
    ensures
        final(out)@ == old(out)@ + join(byte_texts(bytes@), " "@),
{
    let ghost texts = byte_texts(bytes@);
    let mut i: usize = 0;
    while i < bytes.len()
        invariant
            0 <= i <= bytes.len(),
            texts == byte_texts(bytes@),
            out@ == old(out)@ + join(texts.take(i as int), " "@),
        decreases bytes.len() - i,
    {
        if i > 0 {
            push_str(out, " ");
        }
        push_nat(out, bytes[i] as u64);
        proof {
            lemma_join_step(texts, " "@, i as int);
            assert(out@ =~= old(out)@ + join(texts.take(i + 1), " "@));
        }
        i = i + 1;
    }
    proof {
        assert(texts.take(bytes.len() as int) =~= texts);
    }
}

fn write_values(out: &mut String, items: &Vec<Value>)
    ensures
        final(out)@ == old(out)@ + values_text(items@),
    decreases items,
{
    let mut i: usize = 0;
    while i < items.len()
        invariant
            0 <= i <= items.len(),
            out@ == old(out)@ + values_text(items@.take(i as int)),
        decreases items.len() - i,
    {
        if i > 0 {
            push_str(out, " ");
        }
        items[i].write_to(out);
        proof {
            let s = items@.take(i + 1);
            assert(s.drop_last() =~= items@.take(i as int));
            assert(s.last() == items@[i as int]);
            assert(s[0] == items@[0]);
            assert(out@ =~= old(out)@ + values_text(s));
        }
        i = i + 1;
    }
    proof {
        assert(items@.take(items.len() as int) =~= items@);
    }
}

fn write_lines(out: &mut String, items: &Vec<Value>)
    ensures
        final(out)@ == old(out)@ + lines_text(items@),
    decreases items,
{
    let mut i: usize = 0;
    while i < items.len()
        invariant
            0 <= i <= items.len(),
            out@ == old(out)@ + lines_text(items@.take(i as int)),
        decreases items.len() - i,
    {
        items[i].write_to(out);
        push_str(out, "\n    ");
        proof {
            let s = items@.take(i + 1);
            assert(s.drop_last() =~= items@.take(i as int));
            assert(s.last() == items@[i as int]);
            assert(out@ =~= old(out)@ + lines_text(s));
        }
        i = i + 1;
    }
    proof {
        assert(items@.take(items.len() as int) =~= items@);
    }
}

impl Real {
    /// Whether this real is below zero.
    pub fn negative(&self) -> (r: bool)
        ensures
            r == is_negative(*self),
    {
        match self {
            Real::Finite(d) => d.mantissa < 0,
            Real::NegativeInfinity => true,
            _ => false,
        }
    }

    /// Writes the text of this real at the end of `out`.
    pub fn write_to(&self, out: &mut String)
        ensures
            final(out)@ == old(out)@ + real_text(*self),
    {
        match self {
            Real::Finite(d) => push_decimal(out, d.mantissa, d.exponent),
            Real::NegativeZero => push_str(out, "-0"),
            Real::Infinity => push_str(out, "inf"),
            Real::NegativeInfinity => push_str(out, "-inf"),
            Real::NaN => push_str(out, "NaN"),
        }
    }
}

impl Number {
    /// Writes the text of this number at the end of `out`.
    pub fn write_to(&self, out: &mut String)
        ensures
            final(out)@ == old(out)@ + number_text(*self),
    {
        match self {
            Number::Integer(i) => push_int(out, *i),
            Number::Real(r) => r.write_to(out),
            Number::Rational { numerator, denominator } => {
                push_int(out, *numerator);
                push_str(out, "/");
                push_nat(out, *denominator);
                proof {
                    assert(out@ =~= old(out)@ + number_text(*self));
                }
            },
            Number::Complex { real: re, imaginary: im } => {
                re.write_to(out);
                if !im.negative() {
                    push_str(out, "+");
                }
                im.write_to(out);
                push_str(out, "i");
                proof {
                    assert(out@ =~= old(out)@ + number_text(*self));
                }
            },
        }
    }

    /// The text of this number: decimal integers, `numerator/denominator`, the
    /// shortest decimal text of a real, and `a+bi` or `a-bi`.
    pub fn to_text(&self) -> (r: String)
        ensures
            r@ == number_text(*self),
    {
        let mut out = String::new();
        self.write_to(&mut out);
        proof {
            assert(out@ =~= number_text(*self));
        }
        out
    }
}

impl Value {
    /// Writes the written form of this value at the end of `out`.
    pub fn write_to(&self, out: &mut String)
        ensures
            final(out)@ == old(out)@ + value_text(*self),
        decreases self,
    {
        let ghost start = out@;
        match self {
            Value::Boolean(b) => {
                if *b {
                    push_str(out, "#t");
                } else {
                    push_str(out, "#f");
                }
            },
            Value::Character(c) => {
                push_str(out, "#\\");
                push_char(out, *c);
            },
            Value::Null => push_str(out, "()"),
            Value::Pair(p) => {
                push_str(out, "(");
                p.car.write_to(out);
                push_str(out, " . ");
                p.cdr.write_to(out);
                push_str(out, ")");
            },
            Value::Procedure(p) => {
                push_str(out, "(lambda (");
                write_names(out, &p.params);
                push_str(out, ")");
                push_str(out, "\n    ");
                write_lines(out, &p.body);
                push_str(out, ")");
            },
            Value::Symbol(s) => push_str(out, s.as_str()),
            Value::Bytevector(b) => {
                push_str(out, "#u8(");
                write_bytes(out, b);
                push_str(out, ")");
            },
            Value::EofObject => push_str(out, "#<eof>"),
            Value::Number(n) => n.write_to(out),
            Value::Port(_) => push_str(out, "#<port>"),
            Value::String(s) => {
                push_str(out, "\"");
                push_str(out, s.as_str());
                push_str(out, "\"");
            },
            Value::Vector(items) => {
                push_str(out, "#(");
                write_values(out, items);
                push_str(out, ")");
            },
        }
        proof {
            assert(out@ =~= start + value_text(*self));
        }
    }

    /// The written form of this value.
    pub fn to_text(&self) -> (r: String)
        ensures
            r@ == value_text(*self),
    {
        let mut out = String::new();
        self.write_to(&mut out);
        proof {
            assert(out@ =~= value_text(*self));
        }
        out
    }
}

fn write_binding_lines(out: &mut String, vars: &Vec<Variable>)
    ensures
        final(out)@ == old(out)@ + join(binding_lines(vars@), line_break()),
{
    let ghost texts = binding_lines(vars@);
    let mut i: usize = 0;
    while i < vars.len()
        invariant
            0 <= i <= vars.len(),
            texts == binding_lines(vars@),
            out@ == old(out)@ + join(texts.take(i as int), line_break()),
        decreases vars.len() - i,
    {
        let ghost before = out@;
        if i > 0 {
            push_str(out, "\n    ");
        }
        let ghost mid = out@;
        push_str(out, "; ");
        push_str(out, vars[i].name.as_str());
        push_str(out, ": ");
        vars[i].value.write_to(out);
        proof {
            assert(out@ =~= mid + binding_line(vars@[i as int]));
            lemma_join_step(texts, line_break(), i as int);
            assert(out@ =~= old(out)@ + join(texts.take(i + 1), line_break()));
        }
        i = i + 1;
    }
    proof {
        assert(texts.take(vars.len() as int) =~= texts);
    }
}

impl Procedure {
    /// The written form of this procedure.
    pub fn to_text(&self) -> (r: String)
        ensures
            r@ == "(lambda ("@ + join(string_views(self.params@), " "@) + ")"@ + line_break()
                + lines_text(self.body@) + ")"@,
    {
        let mut out = String::new();
        push_str(&mut out, "(lambda (");
        write_names(&mut out, &self.params);
        push_str(&mut out, ")");
        push_str(&mut out, "\n    ");
        write_lines(&mut out, &self.body);
        push_str(&mut out, ")");
        proof {
            assert(out@ =~= "(lambda ("@ + join(string_views(self.params@), " "@) + ")"@
                + line_break() + lines_text(self.body@) + ")"@);
        }
        out
    }

    /// The debug form of this procedure, which also shows the bindings of the frame
    /// it captured, one `; name: value` line each.
    pub fn debug_text(&self) -> (r: String)
        ensures
            r@ == procedure_debug_text(*self),
    {
        let mut out = String::new();
        push_str(&mut out, "(lambda (");
        write_names(&mut out, &self.params);
        push_str(&mut out, ")");
        push_str(&mut out, "\n");
        write_binding_lines(&mut out, self.env.own_bindings());
        push_str(&mut out, "\n    ");
        write_lines(&mut out, &self.body);
        push_str(&mut out, ")");
        proof {
            assert(out@ =~= procedure_debug_text(*self));
        }
        out
    }
}

impl Pair {
    /// The written form of this pair: `(car . cdr)`.
    pub fn to_text(&self) -> (r: String)
        ensures
            r@ == "("@ + value_text(self.car) + " . "@ + value_text(self.cdr) + ")"@,
    {
        let mut out = String::new();
        push_str(&mut out, "(");
        self.car.write_to(&mut out);
        push_str(&mut out, " . ");
        self.cdr.write_to(&mut out);
        push_str(&mut out, ")");
        proof {
            assert(out@ =~= "("@ + value_text(self.car) + " . "@ + value_text(self.cdr) + ")"@);
        }
        out
    }
}

impl Port {
    /// The written form of a port.
    pub fn to_text(&self) -> (r: String)
        ensures
            r@ == "#<port>"@,
    {
        String::from_str("#<port>")
    }
}

} // verus!
