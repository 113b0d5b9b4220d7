//! The hierarchical sign-class code, its written form and its grammar.

use vstd::prelude::*;

verus! {

/// A sign class: one to three numeric segments, or "not applicable".
#[derive(Debug, Clone, Copy, PartialEq, Eq, Hash, Structural)]
pub enum SignClass {
    Single(u8),
    Double(u8, u8),
    Triple(u8, u8, u8),
    Na,
}

/// The character of a decimal digit.
pub open spec fn digit_char(d: int) -> char {
    (48 + d) as char
}

/// The character is one of `0` to `9`.
pub open spec fn is_digit(c: char) -> bool {
    48 <= c as int <= 57
}

/// The number that a decimal digit stands for.
pub open spec fn digit_value(c: char) -> int {
    c as int - 48
}

/// A number in decimal, without leading zeros.
pub open spec fn decimal(n: nat) -> Seq<char>
    decreases n,
{
    if n < 10 {
        seq![digit_char(n as int)]
    } else {
        decimal(n / 10).push(digit_char((n % 10) as int))
    }
}

/// The number that a sequence of decimal digits stands for.
pub open spec fn number_value(s: Seq<char>) -> int
    decreases s.len(),
{
    if s.len() == 0 {
        0
    } else {
        10 * number_value(s.drop_last()) + digit_value(s.last())
    }
}

/// Every character is a decimal digit.
pub open spec fn all_digits(s: Seq<char>) -> bool {
    forall|i: int| 0 <= i < s.len() ==> is_digit(#[trigger] s[i])
}

/// A segment without its sign: what follows a leading `+`, or all of it.
pub open spec fn unsigned_part(s: Seq<char>) -> Seq<char> {
    if s.len() > 0 && s[0] == '+' {
        s.skip(1)
    } else {
        s
    }
}

/// The value of a segment: an optional `+` and then one or more decimal
/// digits that stand for a number up to 255. Leading zeros are accepted.
pub open spec fn segment_value(s: Seq<char>) -> Option<u8> {
    let body = unsigned_part(s);
    if body.len() > 0 && all_digits(body) && number_value(body) <= 255 {
        Some(number_value(body) as u8)
    } else {
        None
    }
}

/// The pieces of a text between its periods; one more than it has periods.
pub open spec fn segments(s: Seq<char>) -> Seq<Seq<char>>
    decreases s.len(),
{
    if s.len() == 0 {
        seq![Seq::<char>::empty()]
    } else {
        let front = segments(s.drop_last());
        if s.last() == '.' {
            front.push(Seq::<char>::empty())
        } else {
            front.update(front.len() - 1, front.last().push(s.last()))
        }
    }
}

/// The written form of "not applicable".
pub open spec fn na_text() -> Seq<char> {
    seq!['N', 'A']
}

/// The class that a text stands for: `NA`, or one to three segments joined
/// by periods.
pub open spec fn parsed(s: Seq<char>) -> Option<SignClass> {
    let parts = segments(s);
    if s == na_text() {
        Some(SignClass::Na)
    } else if parts.len() == 1 {
        match segment_value(parts[0]) {
            Some(a) => Some(SignClass::Single(a)),
            None => None,
        }
    } else if parts.len() == 2 {
        match (segment_value(parts[0]), segment_value(parts[1])) {
            (Some(a), Some(b)) => Some(SignClass::Double(a, b)),
            _ => None,
        }
    } else if parts.len() == 3 {
        match (segment_value(parts[0]), segment_value(parts[1]), segment_value(parts[2])) {
            (Some(a), Some(b), Some(c)) => Some(SignClass::Triple(a, b, c)),
            _ => None,
        }
    } else {
        None
    }
}

/// How far the reading of a segment has come.
#[derive(Clone, Copy, PartialEq, Eq, Structural)]
enum Partial {
    /// Nothing read.
    Empty,
    /// A `+` and nothing else.
    Plus,
    /// Digits that stand for this number.
    Value(u8),
    /// Something that no segment starts with.
    Bad,
}

/// The reading of a segment after one more character.
spec fn step(p: Partial, c: char) -> Partial {
    match p {
        Partial::Empty => if c == '+' {
            Partial::Plus
        } else if is_digit(c) {
            Partial::Value(digit_value(c) as u8)
        } else {
            Partial::Bad
        },
        Partial::Plus => if is_digit(c) {
            Partial::Value(digit_value(c) as u8)
        } else {
            Partial::Bad
        },
        Partial::Value(v) => if is_digit(c) && 10 * v + digit_value(c) <= 255 {
            Partial::Value((10 * v + digit_value(c)) as u8)
        } else {
            Partial::Bad
        },
        Partial::Bad => Partial::Bad,
    }
}

/// The reading of a whole segment, character by character.
spec fn reading(s: Seq<char>) -> Partial
    decreases s.len(),
{
    if s.len() == 0 {
        Partial::Empty
    } else {
        step(reading(s.drop_last()), s.last())
    }
}

/// The value that a reading has arrived at.
spec fn reading_value(p: Partial) -> Option<u8> {
    match p {
        Partial::Value(v) => Some(v),
        _ => None,
    }
}

proof fn lemma_number_grows(s: Seq<char>)
    requires
        all_digits(s),
    ensures
        0 <= number_value(s),
    decreases s.len(),
{
    if s.len() > 0 {
        lemma_number_grows(s.drop_last());
    }
}

/// Reading a segment character by character arrives at its value.
proof fn lemma_reading(s: Seq<char>)
    ensures
        reading_value(reading(s)) == segment_value(s),
        reading(s) is Empty <==> s.len() == 0,
        reading(s) is Plus <==> s.len() == 1 && s[0] == '+',
    decreases s.len(),
{
    if s.len() > 0 {
        let front = s.drop_last();
        let c = s.last();
        lemma_reading(front);
        let body = unsigned_part(s);
        let front_body = unsigned_part(front);
        if front.len() > 0 {
            if s[0] == '+' {
                if front.len() == 1 {
                    assert(number_value(body.drop_last()) == 0);
                } else {
                    assert(body.drop_last() == front_body);
                    lemma_body_push(front_body, body, c);
                }
            } else {
                lemma_body_push(front_body, body, c);
            }
        }
    }
}

proof fn lemma_body_push(front: Seq<char>, body: Seq<char>, c: char)
    requires
        front.len() > 0,
        body.drop_last() == front,
        body.last() == c,
        body.len() == front.len() + 1,
    ensures
        all_digits(body) <==> all_digits(front) && is_digit(c),
        all_digits(body) ==> number_value(body) == 10 * number_value(front) + digit_value(c)
            && number_value(front) >= 0,
{
    assert(forall|i: int| 0 <= i < front.len() ==> front[i] == body[i]);
    if all_digits(body) {
        lemma_number_grows(front);
    }
}

/// Reads one more character of a segment.
fn advance(p: Partial, c: char) -> (r: Partial)
    ensures
        r == step(p, c),
{
    let code: u32 = c as u32;
    let digit: bool = 48 <= code && code <= 57;
    match p {
        Partial::Empty => if c == '+' {
            Partial::Plus
        } else if digit {
            Partial::Value((code - 48) as u8)
        } else {
            Partial::Bad
        },
        Partial::Plus => if digit {
            Partial::Value((code - 48) as u8)
        } else {
            Partial::Bad
        },
        Partial::Value(v) => {
            if digit && 10 * (v as u32) + (code - 48) <= 255 {
                Partial::Value((10 * (v as u32) + (code - 48)) as u8)
            } else {
                Partial::Bad
            }
        },
        Partial::Bad => Partial::Bad,
    }
}

/// Some segment but the last has no value.
spec fn has_bad_segment(parts: Seq<Seq<char>>) -> bool {
    exists|k: int| 0 <= k < parts.len() - 1 && segment_value(#[trigger] parts[k]) is None
}

proof fn lemma_segments_nonempty(s: Seq<char>)
    ensures
        segments(s).len() >= 1,
    decreases s.len(),
{
    if s.len() > 0 {
        lemma_segments_nonempty(s.drop_last());
    }
}

/// A text has no period.
spec fn dotless(s: Seq<char>) -> bool {
    forall|i: int| 0 <= i < s.len() ==> #[trigger] s[i] != '.'
}

proof fn lemma_decimal(n: nat)
    ensures
        decimal(n).len() >= 1,
        all_digits(decimal(n)),
        dotless(decimal(n)),
        number_value(decimal(n)) == n,
    decreases n,
{
    if n < 10 {
        assert(number_value(decimal(n).drop_last()) == 0);
    } else {
        lemma_decimal(n / 10);
        let front = decimal(n / 10);
        let all = decimal(n);
        assert(all.drop_last() == front);
    }
}

proof fn lemma_segments_dotless(s: Seq<char>)
    requires
        dotless(s),
    ensures
        segments(s) == seq![s],
    decreases s.len(),
{
    if s.len() > 0 {
        let front = s.drop_last();
        lemma_segments_dotless(front);
        assert(front.push(s.last()) == s);
    } else {
        assert(s == Seq::<char>::empty());
    }
}

proof fn lemma_segments_join(s: Seq<char>, t: Seq<char>)
    requires
        dotless(t),
    ensures
        segments(s.push('.') + t) == segments(s).push(t),
    decreases t.len(),
{
    let whole = s.push('.') + t;
    if t.len() == 0 {
        assert(whole.drop_last() == s);
        assert(t == Seq::<char>::empty());
    } else {
        let front = t.drop_last();
        lemma_segments_join(s, front);
        assert(whole.drop_last() == s.push('.') + front);
        assert(front.push(t.last()) == t);
    }
}

/// The decimal form of a number is a segment that stands for the number; it
/// has no period and begins with a digit.
proof fn lemma_decimal_segment(n: u8)
    ensures
        segment_value(decimal(n as nat)) == Some(n),
        dotless(decimal(n as nat)),
        decimal(n as nat).len() >= 1,
        is_digit(decimal(n as nat)[0]),
{
    lemma_decimal(n as nat);
    let d = decimal(n as nat);
    assert(is_digit(d[0]));
    assert(unsigned_part(d) == d);
}

/// Reading the written form of a class gives the class back.
pub proof fn lemma_parse_text(c: SignClass)
    ensures
        parsed(c.text()) == Some(c),
{
    let text = c.text();
    match c {
        SignClass::Single(a) => {
            let x = decimal(a as nat);
            lemma_decimal_segment(a);
            lemma_segments_dotless(x);
            assert(text[0] != na_text()[0]);
        },
        SignClass::Double(a, b) => {
            let x = decimal(a as nat);
            let y = decimal(b as nat);
            lemma_decimal_segment(a);
            lemma_decimal_segment(b);
            lemma_segments_dotless(x);
            lemma_segments_join(x, y);
            assert(text[0] == x[0]);
            assert(text[0] != na_text()[0]);
        },
        SignClass::Triple(a, b, d) => {
            let x = decimal(a as nat);
            let y = decimal(b as nat);
            let z = decimal(d as nat);
            lemma_decimal_segment(a);
            lemma_decimal_segment(b);
            lemma_decimal_segment(d);
            lemma_segments_dotless(x);
            lemma_segments_join(x, y);
            let xy = x.push('.') + y;
            assert(text =~= xy.push('.') + z);
            lemma_segments_join(xy, z);
            assert(text[0] == x[0]);
            assert(text[0] != na_text()[0]);
        },
        SignClass::Na => {
            assert(segments(na_text()).len() >= 1) by {
                lemma_segments_nonempty(na_text());
            }
        },
    }
}

/// Appends a number in decimal.
fn push_decimal(out: &mut String, n: u8)
    ensures
        final(out)@ == old(out)@ + decimal(n as nat),
{
    if n >= 100 {
        out.push((48 + n / 100) as char);
    }
    if n >= 10 {
        out.push((48 + (n / 10) % 10) as char);
    }
    out.push((48 + n % 10) as char);
    proof {
        reveal_with_fuel(decimal, 3);
    }
}

impl SignClass {
    /// The class with its third segment dropped, if it has one.
    pub open spec fn truncated(self) -> SignClass {
        match self {
            SignClass::Triple(a, b, _) => SignClass::Double(a, b),
            v => v,
        }
    }

    /// The written form: the segments in decimal, joined by periods, or
    /// `NA`.
    pub open spec fn text(self) -> Seq<char> {
        match self {
            SignClass::Single(a) => decimal(a as nat),
            SignClass::Double(a, b) => decimal(a as nat).push('.') + decimal(b as nat),
            SignClass::Triple(a, b, c) => decimal(a as nat).push('.') + decimal(b as nat).push('.')
                + decimal(c as nat),
            SignClass::Na => na_text(),
        }
    }

    /// Reads a class from its written form: `NA`, or one to three segments
    /// joined by periods, each an optional `+` and decimal digits that stand
    /// for a number up to 255.
    pub fn parse(s: &str) -> (r: Option<SignClass>)
        ensures
            r == parsed(s@),
    {
        let n = s.unicode_len();
        if n == 2 && s.get_char(0) == 'N' && s.get_char(1) == 'A' {
            assert(s@ =~= na_text());
            return Some(SignClass::Na);
        }
        let mut dead: bool = false;
        let mut dots: usize = 0;
        let mut a: u8 = 0;
        let mut b: u8 = 0;
        let mut cur: Partial = Partial::Empty;
        for c in iter: s.chars()
            invariant
                iter.seq() == s@,
                dead <==> segments(s@.take(iter.index() as int)).len() > 3 || has_bad_segment(
                    segments(s@.take(iter.index() as int)),
                ),
                !dead ==> {
                    let parts = segments(s@.take(iter.index() as int));
                    &&& parts.len() == dots + 1
                    &&& dots <= 2
                    &&& reading(parts.last()) == cur
                    &&& dots >= 1 ==> segment_value(parts[0]) == Some(a)
                    &&& dots >= 2 ==> segment_value(parts[1]) == Some(b)
                },
        {
            let ghost prefix = s@.take(iter.index() as int);
            let ghost next = s@.take(iter.index() + 1);
            let ghost parts = segments(prefix);
            let ghost after = segments(next);
            proof {
                assert(next.drop_last() == prefix);
                lemma_reading(parts.last());
                if c != '.' {
                    let grown = parts.last().push(c);
                    assert(grown.drop_last() == parts.last());
                }
            }
            if !dead {
                if c == '.' {
                    match cur {
                        Partial::Value(v) => {
                            if dots == 0 {
                                a = v;
                                dots = 1;
                            } else if dots == 1 {
                                b = v;
                                dots = 2;
                            } else {
                                dead = true;
                            }
                        },
                        _ => {
                            dead = true;
                        },
                    }
                    cur = Partial::Empty;
                } else {
                    cur = advance(cur, c);
                }
            }
        }
        proof {
            assert(s@.take(s@.len() as int) == s@);
            lemma_reading(segments(s@).last());
        }
        if dead {
            return None;
        }
        match cur {
            Partial::Value(v) => {
                if dots == 0 {
                    Some(SignClass::Single(v))
                } else if dots == 1 {
                    Some(SignClass::Double(a, v))
                } else {
                    Some(SignClass::Triple(a, b, v))
                }
            },
            _ => None,
        }
    }

    /// The written form of the class.
    pub fn to_text(self) -> (r: String)
        ensures
            r@ == self.text(),
    {
        let mut out = String::new();
        match self {
            SignClass::Single(a) => {
                push_decimal(&mut out, a);
            },
            SignClass::Double(a, b) => {
                push_decimal(&mut out, a);
                out.push('.');
                push_decimal(&mut out, b);
            },
            SignClass::Triple(a, b, c) => {
                push_decimal(&mut out, a);
                out.push('.');
                push_decimal(&mut out, b);
                out.push('.');
                push_decimal(&mut out, c);
            },
            SignClass::Na => {
                out.push('N');
                out.push('A');
            },
        }
        out
    }

    /// Truncate third integer if present.
    pub fn truncate(self) -> (r: SignClass)
        ensures
            r == self.truncated(),
    {
        match self {
            SignClass::Triple(a, b, _) => SignClass::Double(a, b),
            v => v,
        }
    }
}

} // verus!
