use crate::syntax::grammar::{byte_is_digit, digits_end, DOT, is_at, MINUS, number_literal};
use vstd::prelude::*;
use vstd::string::*;

verus! {

pub const ZERO: u8 = 0x30;

/// Whether the bytes are a number literal and nothing more: an optional `-`,
/// digits and an optional fraction.
pub open spec fn is_number(b: Seq<u8>) -> bool {
    number_literal(b, 0) matches Ok((_, q)) && q == b.len()
}

/// The digits without the zeros that lead them.
pub open spec fn without_leading_zeros(s: Seq<u8>) -> Seq<u8>
    decreases s.len(),
{
    if s.len() > 0 && s[0] == ZERO {
        without_leading_zeros(s.drop_first())
    } else {
        s
    }
}

/// The digits without the zeros that trail them.
pub open spec fn without_trailing_zeros(s: Seq<u8>) -> Seq<u8>
    decreases s.len(),
{
    if s.len() > 0 && s.last() == ZERO {
        without_trailing_zeros(s.drop_last())
    } else {
        s
    }
}

/// Where the digits before the fraction start.
pub open spec fn whole_start(b: Seq<u8>) -> int {
    if is_at(b, 0, MINUS) {
        1
    } else {
        0
    }
}

/// Where the digits before the fraction end.
pub open spec fn whole_end(b: Seq<u8>) -> int {
    digits_end(b, whole_start(b))
}

/// The number that a literal stands for: its sign, the digits before the
/// point without leading zeros and the digits behind it without trailing
/// zeros. Zero has no sign.
pub ghost struct Magnitude {
    pub negative: bool,
    pub whole: Seq<u8>,
    pub fraction: Seq<u8>,
}

pub open spec fn magnitude(b: Seq<u8>) -> Magnitude {
    let whole = without_leading_zeros(b.subrange(whole_start(b), whole_end(b)));
    let fraction = if is_at(b, whole_end(b), DOT) {
        without_trailing_zeros(b.subrange(whole_end(b) + 1, b.len() as int))
    } else {
        Seq::empty()
    };
    Magnitude {
        negative: whole_start(b) == 1 && (whole.len() > 0 || fraction.len() > 0),
        whole,
        fraction,
    }
}

/// Whether two number literals stand for the same number.
pub open spec fn same_number(a: Seq<u8>, b: Seq<u8>) -> bool {
    magnitude(a) == magnitude(b)
}

/// The first position from `start` on, before `end`, that holds no zero.
fn skip_leading_zeros(b: &[u8], start: usize, end: usize) -> (r: usize)
    requires
        start <= end <= b@.len(),
    ensures
        start <= r <= end,
        b@.subrange(r as int, end as int) == without_leading_zeros(
            b@.subrange(start as int, end as int),
        ),
{
    let mut i = start;
    while i < end && b[i] == ZERO
        invariant
            start <= i <= end <= b@.len(),
            without_leading_zeros(b@.subrange(start as int, end as int)) == without_leading_zeros(
                b@.subrange(i as int, end as int),
            ),
        decreases end - i,
    {
        assert(b@.subrange(i as int, end as int).drop_first() =~= b@.subrange(
            i + 1,
            end as int,
        ));
        i += 1;
    }
    i
}

/// The last position before `end`, from `start` on, behind which only zeros
/// stand.
fn skip_trailing_zeros(b: &[u8], start: usize, end: usize) -> (r: usize)
    requires
        start <= end <= b@.len(),
    ensures
        start <= r <= end,
        b@.subrange(start as int, r as int) == without_trailing_zeros(
            b@.subrange(start as int, end as int),
        ),
{
    let mut i = end;
    while i > start && b[i - 1] == ZERO
        invariant
            start <= i <= end <= b@.len(),
            without_trailing_zeros(b@.subrange(start as int, end as int))
                == without_trailing_zeros(b@.subrange(start as int, i as int)),
        decreases i - start,
    {
        assert(b@.subrange(start as int, i as int).drop_last() =~= b@.subrange(
            start as int,
            i - 1,
        ));
        i -= 1;
    }
    i
}

/// Where the digits that start at `start` end.
fn scan_digits(b: &[u8], start: usize) -> (r: usize)
    requires
        start <= b@.len(),
    ensures
        start <= r <= b@.len(),
        r == digits_end(b@, start as int),
{
    let mut i = start;
    while i < b.len() && byte_is_digit(b[i])
        invariant
            start <= i <= b@.len(),
            digits_end(b@, start as int) == digits_end(b@, i as int),
        decreases b.len() - i,
    {
        i += 1;
    }
    i
}

/// Whether the bytes from `a_start` to `a_end` of `a` are those from
/// `b_start` to `b_end` of `b`.
fn same_range(a: &[u8], a_start: usize, a_end: usize, b: &[u8], b_start: usize, b_end: usize) -> (r:
    bool)
    requires
        a_start <= a_end <= a@.len(),
        b_start <= b_end <= b@.len(),
    ensures
        r == (a@.subrange(a_start as int, a_end as int) == b@.subrange(
            b_start as int,
            b_end as int,
        )),
{
    if a_end - a_start != b_end - b_start {
        assert(a@.subrange(a_start as int, a_end as int).len() != b@.subrange(
            b_start as int,
            b_end as int,
        ).len());
        return false;
    }
    let n = a_end - a_start;
    let mut i: usize = 0;
    while i < n
        invariant
            a_start + n == a_end <= a@.len(),
            b_start + n == b_end <= b@.len(),
            i <= n,
            forall|j: int| a_start <= j < a_start + i ==> #[trigger] a@[j] == b@[j - a_start
                + b_start],
        decreases n - i,
    {
        if a[a_start + i] != b[b_start + i] {
            assert(a@.subrange(a_start as int, a_end as int)[i as int] != b@.subrange(
                b_start as int,
                b_end as int,
            )[i as int]);
            return false;
        }
        i += 1;
    }
    assert(a@.subrange(a_start as int, a_end as int) =~= b@.subrange(
        b_start as int,
        b_end as int,
    ));
    true
}

/// The parts of a number literal as offsets into its bytes.
struct Parts {
    minus: bool,
    whole_start: usize,
    whole_end: usize,
    fraction_start: usize,
    fraction_end: usize,
}

fn parts_of(b: &[u8]) -> (p: Parts)
    ensures
        p.whole_start <= p.whole_end <= b@.len(),
        p.fraction_start <= p.fraction_end <= b@.len(),
        magnitude(b@) == (Magnitude {
            negative: p.minus && (p.whole_start < p.whole_end || p.fraction_start
                < p.fraction_end),
            whole: b@.subrange(p.whole_start as int, p.whole_end as int),
            fraction: b@.subrange(p.fraction_start as int, p.fraction_end as int),
        }),
{
    let minus = b.len() > 0 && b[0] == MINUS;
    let start: usize = if minus {
        1
    } else {
        0
    };
    let end = scan_digits(b, start);
    let whole_start = skip_leading_zeros(b, start, end);
    if end < b.len() && b[end] == DOT {
        let fraction_end = skip_trailing_zeros(b, end + 1, b.len());
        Parts { minus, whole_start, whole_end: end, fraction_start: end + 1, fraction_end }
    } else {
        assert(b@.subrange(0, 0) =~= Seq::empty());
        Parts { minus, whole_start, whole_end: end, fraction_start: 0, fraction_end: 0 }
    }
}

/// Whether two number literals stand for the same number.
pub fn numeric_eq(a: &[u8], b: &[u8]) -> (r: bool)
    ensures
        r == same_number(a@, b@),
{
    let pa = parts_of(a);
    let pb = parts_of(b);
    let na = pa.minus && (pa.whole_start < pa.whole_end || pa.fraction_start < pa.fraction_end);
    let nb = pb.minus && (pb.whole_start < pb.whole_end || pb.fraction_start < pb.fraction_end);
    na == nb && same_range(a, pa.whole_start, pa.whole_end, b, pb.whole_start, pb.whole_end)
        && same_range(
        a,
        pa.fraction_start,
        pa.fraction_end,
        b,
        pb.fraction_start,
        pb.fraction_end,
    )
}

/// Whether the bytes are a number literal and nothing more.
pub fn is_number_literal(b: &[u8]) -> (r: bool)
    ensures
        r == is_number(b@),
{
    let start: usize = if b.len() > 0 && b[0] == MINUS {
        1
    } else {
        0
    };
    let end = scan_digits(b, start);
    if end == start {
        return false;
    }
    if end < b.len() && b[end] == DOT {
        let last = scan_digits(b, end + 1);
        last > end + 1 && last == b.len()
    } else {
        end == b.len()
    }
}

/// A number as it was written.
#[derive(Debug)]
pub struct FluentNumber {
    value: String,
}

impl FluentNumber {
    #[verifier::type_invariant]
    spec fn well_formed(self) -> bool {
        is_number(vstd::utf8::encode_utf8(self.value@))
    }

    /// The number as it was written.
    pub closed spec fn view(&self) -> Seq<char> {
        self.value@
    }

    /// The number that `input` is, where it is a number literal.
    pub fn from_str(input: &str) -> (r: Option<FluentNumber>)
        ensures
            match r {
                Some(n) => n.view() == input@ && is_number(input.spec_bytes()),
                None => !is_number(input.spec_bytes()),
            },
    {
        if is_number_literal(input.as_bytes()) {
            Some(FluentNumber { value: String::from_str(input) })
        } else {
            None
        }
    }

    /// The number as it was written.
    pub fn as_str(&self) -> (r: &str)
        ensures
            r@ == self.view(),
            is_number(r.spec_bytes()),
    {
        proof {
            use_type_invariant(self);
        }
        self.value.as_str()
    }

    /// Appends the number, as it was written, to `w`.
    pub fn write(&self, w: &mut String)
        ensures
            final(w)@ == old(w)@ + self.view(),
    {
        w.append(self.value.as_str());
    }

    /// Whether the two stand for the same number.
    pub fn same(&self, other: &FluentNumber) -> (r: bool)
        ensures
            r == same_number(
                vstd::utf8::encode_utf8(self.view()),
                vstd::utf8::encode_utf8(other.view()),
            ),
    {
        numeric_eq(self.value.as_str().as_bytes(), other.value.as_str().as_bytes())
    }

    /// A copy of the number.
    pub fn duplicate(&self) -> (r: FluentNumber)
        ensures
            r.view() == self.view(),
    {
        proof {
            use_type_invariant(self);
        }
        FluentNumber { value: self.value.clone() }
    }
}

} // verus!
