use vstd::prelude::*;

verus! {

/// What a field of a section holds.
#[derive(Debug)]
pub enum Value {
    String(String),
    Integer(i64),
    /// A floating-point number, held as its canonical decimal text.
    Float(String),
    Boolean(bool),
    /// A value of any other kind (array, table, date-time), held as the name of its kind.
    Other(String),
}

/// The mathematical model of a `Value`.
pub enum ValueModel {
    Str(Seq<char>),
    Int(int),
    Float(Seq<char>),
    Bool(bool),
    Other(Seq<char>),
}

impl View for Value {
    type V = ValueModel;

    open spec fn view(&self) -> ValueModel {
        match self {
            Value::String(s) => ValueModel::Str(s@),
            Value::Integer(i) => ValueModel::Int(*i as int),
            Value::Float(t) => ValueModel::Float(t@),
            Value::Boolean(b) => ValueModel::Bool(*b),
            Value::Other(k) => ValueModel::Other(k@),
        }
    }
}

/// Only strings, integers, floats and booleans may be the target of a reference.
pub open spec fn is_scalar(v: ValueModel) -> bool {
    !(v is Other)
}

/// The character of a decimal digit.
pub open spec fn digit_char(d: nat) -> char {
    seq!['0', '1', '2', '3', '4', '5', '6', '7', '8', '9'][(d % 10) as int]
}

/// The decimal digits of a natural number, most significant first, without leading zeros.
pub open spec fn decimal_digits(n: nat) -> Seq<char>
    decreases n,
{
    if n < 10 {
        seq![digit_char(n)]
    } else {
        decimal_digits(n / 10).push(digit_char(n % 10))
    }
}

/// The canonical decimal text of an integer: a minus sign before negative ones.
pub open spec fn decimal(i: int) -> Seq<char> {
    if i < 0 {
        seq!['-'] + decimal_digits((-i) as nat)
    } else {
        decimal_digits(i as nat)
    }
}

pub open spec fn bool_text(b: bool) -> Seq<char> {
    if b {
        seq!['t', 'r', 'u', 'e']
    } else {
        seq!['f', 'a', 'l', 's', 'e']
    }
}

/// The text that a reference to a field with value `v` is replaced by.
pub open spec fn render(v: ValueModel) -> Seq<char> {
    match v {
        ValueModel::Str(s) => s,
        ValueModel::Int(i) => decimal(i),
        ValueModel::Float(t) => t,
        ValueModel::Bool(b) => bool_text(b),
        ValueModel::Other(_) => Seq::empty(),
    }
}

fn digit_str(d: u64) -> (r: &'static str)
    requires
        d < 10,
    ensures
        r@ == seq![digit_char(d as nat)],
{
    proof {
        reveal_strlit("0");
        reveal_strlit("1");
        reveal_strlit("2");
        reveal_strlit("3");
        reveal_strlit("4");
        reveal_strlit("5");
        reveal_strlit("6");
        reveal_strlit("7");
        reveal_strlit("8");
        reveal_strlit("9");
    }
    if d == 0 {
        "0"
    } else if d == 1 {
        "1"
    } else if d == 2 {
        "2"
    } else if d == 3 {
        "3"
    } else if d == 4 {
        "4"
    } else if d == 5 {
        "5"
    } else if d == 6 {
        "6"
    } else if d == 7 {
        "7"
    } else if d == 8 {
        "8"
    } else {
        "9"
    }
}

fn push_digits(n: u64, out: &mut String)
    ensures
        final(out)@ == old(out)@ + decimal_digits(n as nat),
    decreases n,
{
    if n >= 10 {
        push_digits(n / 10, out);
    }
    out.append(digit_str(n % 10));
    assert(final(out)@ =~= old(out)@ + decimal_digits(n as nat));
}

/// Appends the canonical decimal text of `i` to `out`.
pub fn push_decimal(i: i64, out: &mut String)
    ensures
        final(out)@ == old(out)@ + decimal(i as int),
{
    if i < 0 {
        proof {
            reveal_strlit("-");
        }
        out.append("-");
        let magnitude: u64 = (-(i as i128)) as u64;
        push_digits(magnitude, out);
        assert(final(out)@ =~= old(out)@ + decimal(i as int));
    } else {
        push_digits(i as u64, out);
    }
}

impl Value {
    /// A copy of this value.
    pub fn duplicate(&self) -> (r: Value)
        ensures
            r@ == self@,
    {
        match self {
            Value::String(s) => Value::String(s.clone()),
            Value::Integer(i) => Value::Integer(*i),
            Value::Float(t) => Value::Float(t.clone()),
            Value::Boolean(b) => Value::Boolean(*b),
            Value::Other(k) => Value::Other(k.clone()),
        }
    }

    /// Appends the text that a reference to this value is replaced by.
    pub fn render_into(&self, out: &mut String)
        ensures
            final(out)@ == old(out)@ + render(self@),
    {
        match self {
            Value::String(s) => out.append(s.as_str()),
            Value::Integer(i) => push_decimal(*i, out),
            Value::Float(t) => out.append(t.as_str()),
            Value::Boolean(b) => {
                proof {
                    reveal_strlit("true");
                    reveal_strlit("false");
                }
                if *b {
                    out.append("true");
                } else {
                    out.append("false");
                }
            },
            Value::Other(_) => {
                assert(old(out)@ + render(self@) =~= old(out)@);
            },
        }
    }

    /// The text that a reference to this value is replaced by.
    pub fn render(&self) -> (r: String)
        ensures
            r@ == render(self@),
    {
        let mut out = String::new();
        self.render_into(&mut out);
        assert(out@ =~= render(self@));
        out
    }
}

} // verus!
