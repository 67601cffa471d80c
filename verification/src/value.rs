//! Runtime values of the language and their basic operations.

use vstd::prelude::*;

verus! {

/// A runtime value: a number, a byte string, a boolean, or nil.
///
/// Numbers are 64-bit signed integers; arithmetic on them wraps around on
/// overflow.  Strings are held as byte vectors; the machine never inspects
/// their encoding.
pub enum Value {
    Number(i64),
    Str(Vec<u8>),
    Boolean(bool),
    Nil,
}

/// The mathematical model of a [`Value`]: the same tags, with the string
/// payload abstracted to a sequence of bytes.
pub ghost enum ValueM {
    Number(i64),
    Str(Seq<u8>),
    Boolean(bool),
    Nil,
}

impl View for Value {
    type V = ValueM;

    open spec fn view(&self) -> ValueM {
        match self {
            Value::Number(n) => ValueM::Number(*n),
            Value::Str(s) => ValueM::Str(s@),
            Value::Boolean(b) => ValueM::Boolean(*b),
            Value::Nil => ValueM::Nil,
        }
    }
}

/// Structural equality of values: numbers by value, strings by content,
/// booleans by value, nil equals only nil, and values of different tags are
/// never equal.
pub open spec fn eq_values(a: ValueM, b: ValueM) -> bool {
    match (a, b) {
        (ValueM::Number(x), ValueM::Number(y)) => x == y,
        (ValueM::Str(x), ValueM::Str(y)) => x == y,
        (ValueM::Boolean(x), ValueM::Boolean(y)) => x == y,
        (ValueM::Nil, ValueM::Nil) => true,
        _ => false,
    }
}

/// Truthiness: nil and `false` are falsy; every other value is truthy.
pub open spec fn is_truthy(v: ValueM) -> bool {
    match v {
        ValueM::Boolean(b) => b,
        ValueM::Nil => false,
        _ => true,
    }
}

/// Compares two byte vectors by content.
pub fn bytes_eq(a: &Vec<u8>, b: &Vec<u8>) -> (r: bool)
    ensures
        r == (a@ == b@),
{
    if a.len() != b.len() {
        proof {
            assert(a@ != b@);
        }
        return false;
    }
    let n: usize = a.len();
    let mut i: usize = 0;
    while i < n
        invariant
            n == a@.len(),
            n == b@.len(),
            i <= n,
            forall|k: int| 0 <= k < i ==> a@[k] == b@[k],
        decreases n - i,
    {
        if a[i] != b[i] {
            proof {
                assert(a@[i as int] != b@[i as int]);
            }
            return false;
        }
        i = i + 1;
    }
    proof {
        assert(a@ =~= b@);
    }
    true
}

/// Copies a byte vector.
pub fn copy_bytes(a: &Vec<u8>) -> (r: Vec<u8>)
    ensures
        r@ == a@,
{
    let n: usize = a.len();
    let mut r: Vec<u8> = Vec::new();
    let mut i: usize = 0;
    while i < n
        invariant
            n == a@.len(),
            i <= n,
            r@ == a@.subrange(0, i as int),
        decreases n - i,
    {
        r.push(a[i]);
        proof {
            assert(r@ =~= a@.subrange(0, i + 1 as int));
        }
        i = i + 1;
    }
    proof {
        assert(r@ =~= a@);
    }
    r
}

/// Copies the byte range `from .. to` out of a vector.
pub fn copy_byte_range(a: &Vec<u8>, from: usize, to: usize) -> (r: Vec<u8>)
    requires
        from <= to <= a@.len(),
    ensures
        r@ == a@.subrange(from as int, to as int),
{
    let mut r: Vec<u8> = Vec::new();
    let mut i: usize = from;
    while i < to
        invariant
            from <= i <= to <= a@.len(),
            r@ == a@.subrange(from as int, i as int),
        decreases to - i,
    {
        r.push(a[i]);
        proof {
            assert(r@ =~= a@.subrange(from as int, i + 1 as int));
        }
        i = i + 1;
    }
    r
}

/// The decimal digits of `n`, most significant first; empty for zero.
pub open spec fn dec_digits(n: nat) -> Seq<u8>
    decreases n,
{
    if n == 0 {
        Seq::empty()
    } else {
        dec_digits(n / 10).push((n % 10 + '0' as nat) as u8)
    }
}

/// The decimal rendering of a non-negative number; zero renders as `0`.
pub open spec fn dec_rep(n: nat) -> Seq<u8> {
    if n == 0 {
        seq![('0' as u8)]
    } else {
        dec_digits(n)
    }
}

/// The textual rendering of an integer: a minus sign for negative numbers,
/// then the decimal digits of the magnitude.
pub open spec fn int_rep(n: int) -> Seq<u8> {
    if n < 0 {
        seq![('-' as u8)] + dec_rep((-n) as nat)
    } else {
        dec_rep(n as nat)
    }
}

/// The textual rendering of a value as the print statement writes it:
/// numbers in decimal, strings verbatim, booleans as `true`/`false`, and
/// nil as `nil`.
pub open spec fn value_rep(v: ValueM) -> Seq<u8> {
    match v {
        ValueM::Number(n) => int_rep(n as int),
        ValueM::Str(s) => s,
        ValueM::Boolean(b) => if b {
            seq![('t' as u8), ('r' as u8), ('u' as u8), ('e' as u8)]
        } else {
            seq![('f' as u8), ('a' as u8), ('l' as u8), ('s' as u8), ('e' as u8)]
        },
        ValueM::Nil => seq![('n' as u8), ('i' as u8), ('l' as u8)],
    }
}

/// Renders a non-negative number in decimal.
fn render_u64(m: u64) -> (out: Vec<u8>)
    ensures
        out@ == dec_rep(m as nat),
{
    let mut out: Vec<u8> = Vec::new();
    if m == 0 {
        out.push(('0' as u8));
        proof {
            assert(out@ =~= dec_rep(0));
        }
        return out;
    }
    let mut tmp: Vec<u8> = Vec::new();
    let mut k: u64 = m;
    while k > 0
        invariant
            dec_digits(m as nat) =~= dec_digits(k as nat) + tmp@.reverse(),
            k == 0 ==> tmp@.len() > 0,
        decreases k,
    {
        let ghost pre = tmp@;
        let ghost kpre = k as nat;
        let d: u8 = (k % 10) as u8;
        tmp.push(('0' as u8) + d);
        k = k / 10;
        proof {
            assert(tmp@.reverse() =~= seq![(('0' as u8) + d) as u8] + pre.reverse());
            assert(dec_digits(kpre) == dec_digits(kpre / 10).push((('0' as u8) + d) as u8));
            assert(dec_digits(kpre / 10) + tmp@.reverse() =~= dec_digits(kpre) + pre.reverse());
        }
    }
    let n: usize = tmp.len();
    let mut i: usize = 0;
    while i < n
        invariant
            n == tmp@.len(),
            i <= n,
            out@.len() == i,
            forall|j: int| 0 <= j < i ==> out@[j] == tmp@[n - 1 - j],
        decreases n - i,
    {
        out.push(tmp[n - 1 - i]);
        i = i + 1;
    }
    proof {
        assert(out@ =~= tmp@.reverse());
        assert(dec_digits(m as nat) =~= out@);
    }
    out
}

/// Renders an integer in decimal, with a leading minus sign when negative.
pub fn render_i64(n: i64) -> (out: Vec<u8>)
    ensures
        out@ == int_rep(n as int),
{
    if n >= 0 {
        render_u64(n as u64)
    } else {
        let mag: u64 = if n == i64::MIN {
            9223372036854775808u64
        } else {
            (-n) as u64
        };
        let digits: Vec<u8> = render_u64(mag);
        let mut out: Vec<u8> = Vec::new();
        out.push(('-' as u8));
        let m: usize = digits.len();
        let mut i: usize = 0;
        while i < m
            invariant
                m == digits@.len(),
                i <= m,
                out@ =~= seq![('-' as u8)] + digits@.subrange(0, i as int),
            decreases m - i,
        {
            out.push(digits[i]);
            proof {
                assert(out@ =~= seq![('-' as u8)] + digits@.subrange(0, i + 1 as int));
            }
            i = i + 1;
        }
        proof {
            assert(digits@.subrange(0, m as int) =~= digits@);
        }
        out
    }
}

impl Value {
    /// Renders the value as the print statement writes it.
    pub fn render(&self) -> (out: Vec<u8>)
        ensures
            out@ == value_rep(self@),
    {
        match self {
            Value::Number(n) => render_i64(*n),
            Value::Str(s) => copy_bytes(s),
            Value::Boolean(b) => {
                let mut out: Vec<u8> = Vec::new();
                if *b {
                    out.push(('t' as u8));
                    out.push(('r' as u8));
                    out.push(('u' as u8));
                    out.push(('e' as u8));
                    proof {
                        assert(out@ =~= value_rep(self@));
                    }
                } else {
                    out.push(('f' as u8));
                    out.push(('a' as u8));
                    out.push(('l' as u8));
                    out.push(('s' as u8));
                    out.push(('e' as u8));
                    proof {
                        assert(out@ =~= value_rep(self@));
                    }
                }
                out
            },
            Value::Nil => {
                let mut out: Vec<u8> = Vec::new();
                out.push(('n' as u8));
                out.push(('i' as u8));
                out.push(('l' as u8));
                proof {
                    assert(out@ =~= value_rep(self@));
                }
                out
            },
        }
    }

    /// Copies the value; the copy has the same model.
    pub fn duplicate(&self) -> (r: Value)
        ensures
            r@ == self@,
    {
        match self {
            Value::Number(n) => Value::Number(*n),
            Value::Str(s) => Value::Str(copy_bytes(s)),
            Value::Boolean(b) => Value::Boolean(*b),
            Value::Nil => Value::Nil,
        }
    }

    /// Structural equality test; never fails, cross-tag comparisons are
    /// simply unequal.
    pub fn equals(&self, other: &Value) -> (r: bool)
        ensures
            r == eq_values(self@, other@),
    {
        match (self, other) {
            (Value::Number(x), Value::Number(y)) => *x == *y,
            (Value::Str(x), Value::Str(y)) => bytes_eq(x, y),
            (Value::Boolean(x), Value::Boolean(y)) => *x == *y,
            (Value::Nil, Value::Nil) => true,
            _ => false,
        }
    }

    /// Truthiness test: nil and `false` are falsy, everything else truthy.
    pub fn truthy(&self) -> (r: bool)
        ensures
            r == is_truthy(self@),
    {
        match self {
            Value::Boolean(b) => *b,
            Value::Nil => false,
            _ => true,
        }
    }
}

} // verus!
