use crate::syntax::grammar::{
    BACKSLASH, byte_is_hex_digit, cut_after, hex_end, is_at, is_hex_digit, LOWER_U, piece, QUOTE,
    UPPER_U,
};
use crate::syntax::slice::{cuts_around_ascii, is_cut, lemma_cuts_around_ascii, str_slice};
use vstd::prelude::*;
use vstd::string::*;
use vstd::utf8::*;

verus! {

/// What stands for an escape that names no character.
pub const UNKNOWN_CHAR: char = '\u{FFFD}';

/// The value of a hexadecimal digit.
pub open spec fn hex_value(c: u8) -> int {
    if 0x30 <= c <= 0x39 {
        c - 0x30
    } else if 0x41 <= c <= 0x46 {
        c - 0x41 + 10
    } else {
        c - 0x61 + 10
    }
}

/// The number that the hexadecimal digits from `start` to `end` write.
pub open spec fn hex_number(b: Seq<u8>, start: int, end: int) -> int
    decreases end - start,
{
    if end <= start {
        0
    } else {
        hex_number(b, start, end - 1) * 16 + hex_value(b[end - 1])
    }
}

/// Whether `n` is the code of a character: not above U+10FFFF and no
/// surrogate.
pub open spec fn is_scalar_value(n: int) -> bool {
    0 <= n <= 0x10FFFF && !(0xD800 <= n <= 0xDFFF)
}

/// The character with the code `n`, or the replacement character where there
/// is none.
pub open spec fn scalar(n: int) -> char {
    if is_scalar_value(n) {
        (n as u32) as char
    } else {
        UNKNOWN_CHAR
    }
}

/// The first position from `p` on that holds a backslash, or the end.
pub open spec fn plain_end(b: Seq<u8>, p: int) -> int
    decreases b.len() - p,
{
    if 0 <= p < b.len() && b[p] != BACKSLASH {
        plain_end(b, p + 1)
    } else {
        p
    }
}

/// The character that the escape at `p` names and where the escape ends:
/// `\\` and `\"` name the character behind the backslash, `\u` with four and
/// `\U` with six hexadecimal digits the character of that code. Any other
/// names none.
pub open spec fn escape(b: Seq<u8>, p: int) -> (char, int) {
    if is_at(b, p + 1, BACKSLASH) {
        ('\\', p + 2)
    } else if is_at(b, p + 1, QUOTE) {
        ('"', p + 2)
    } else if is_at(b, p + 1, LOWER_U) || is_at(b, p + 1, UPPER_U) {
        let n: nat = if is_at(b, p + 1, LOWER_U) {
            4
        } else {
            6
        };
        let q = hex_end(b, p + 2, n);
        (
            if q - (p + 2) == n {
                scalar(hex_number(b, p + 2, q))
            } else {
                UNKNOWN_CHAR
            },
            q,
        )
    } else if p + 1 < b.len() {
        (UNKNOWN_CHAR, cut_after(b, p + 1))
    } else {
        (UNKNOWN_CHAR, p + 1)
    }
}

/// The text from `p` on with every escape replaced by the character that it
/// names.
pub open spec fn unescaped(b: Seq<u8>, p: int) -> Seq<char>
    decreases b.len() - p,
{
    if !(0 <= p < b.len()) {
        Seq::empty()
    } else if b[p] != BACKSLASH {
        let q = plain_end(b, p);
        if p < q <= b.len() {
            piece(b, p, q) + unescaped(b, q)
        } else {
            Seq::empty()
        }
    } else {
        let (c, q) = escape(b, p);
        if p < q <= b.len() {
            seq![c] + unescaped(b, q)
        } else {
            seq![c]
        }
    }
}

/// `char::from_u32` gives the character whose code is `n`, and none where `n`
/// is above U+10FFFF or a surrogate.
#[verifier::external_body]
fn char_from_u32(n: u32) -> (r: Option<char>)
    ensures
        r is Some == is_scalar_value(n as int),
        r matches Some(c) ==> c as u32 == n,
{
    char::from_u32(n)
}

/// `String::push` appends one character.
#[verifier::external_body]
pub(crate) fn push_char(w: &mut String, c: char)
    ensures
        final(w)@ == old(w)@.push(c),
{
    w.push(c)
}

/// The value of the hexadecimal digit `c`.
fn hex_digit_value(c: u8) -> (r: u32)
    requires
        is_hex_digit(c),
    ensures
        r == hex_value(c),
        r < 16,
{
    if 0x30 <= c && c <= 0x39 {
        (c - 0x30) as u32
    } else if 0x41 <= c && c <= 0x46 {
        (c - 0x41 + 10) as u32
    } else {
        (c - 0x61 + 10) as u32
    }
}

/// Reads the escape at `ptr`, where a backslash stands.
fn read_escape(b: &[u8], ptr: usize) -> (r: (char, usize))
    requires
        ptr < b@.len(),
        b@[ptr as int] == BACKSLASH,
        valid_utf8(b@),
    ensures
        (r.0, r.1 as int) == escape(b@, ptr as int),
        ptr < r.1 <= b@.len(),
        is_cut(b@, r.1 as int),
{
    broadcast use group_utf8_lib;

    proof {
        lemma_cuts_around_ascii(b@);
        assert(b@[ptr as int] < 0x80);
    }
    let size = b.len();
    if ptr + 1 >= size {
        return (UNKNOWN_CHAR, ptr + 1);
    }
    let next = b[ptr + 1];
    if next == BACKSLASH {
        assert(b@[ptr + 1] < 0x80);
        ('\\', ptr + 2)
    } else if next == QUOTE {
        assert(b@[ptr + 1] < 0x80);
        ('"', ptr + 2)
    } else if next == LOWER_U || next == UPPER_U {
        assert(b@[ptr + 1] < 0x80);
        let len: usize = if next == LOWER_U {
            4
        } else {
            6
        };
        let start = ptr + 2;
        let mut q = start;
        let mut n: u32 = 0;
        while q - start < len && q < b.len() && byte_is_hex_digit(b[q])
            invariant
                start == ptr + 2,
                start <= q <= b@.len(),
                q - start <= len <= 6,
                hex_end(b@, start as int, len as nat) == hex_end(
                    b@,
                    q as int,
                    (len - (q - start)) as nat,
                ),
                n == hex_number(b@, start as int, q as int),
                n < pow16((q - start) as nat),
                is_cut(b@, q as int),
                cuts_around_ascii(b@),
            decreases b.len() - q,
        {
            assert(b@[q as int] < 0x80);
            let d = hex_digit_value(b[q]);
            proof {
                lemma_pow16((q - start) as nat);
            }
            n = n * 16 + d;
            q += 1;
        }
        if q - start == len {
            match char_from_u32(n) {
                Some(c) => {
                    proof {
                        char_u32_cast(c, n);
                    }
                    (c, q)
                },
                None => (UNKNOWN_CHAR, q),
            }
        } else {
            (UNKNOWN_CHAR, q)
        }
    } else {
        let mut end = ptr + 2;
        while end < b.len() && 0x80 <= b[end] && b[end] <= 0xbf
            invariant
                ptr + 1 < end <= b@.len(),
                cut_after(b@, ptr + 1) == cut_after(b@, end - 1),
            decreases b.len() - end,
        {
            end += 1;
        }
        proof {
            broadcast use group_utf8_lib;

        }
        (UNKNOWN_CHAR, end)
    }
}

/// Sixteen to the power of `n`.
pub open spec fn pow16(n: nat) -> int
    decreases n,
{
    if n == 0 {
        1
    } else {
        16 * pow16((n - 1) as nat)
    }
}

proof fn lemma_pow16(n: nat)
    requires
        n <= 6,
    ensures
        pow16(n) <= 0x1000000,
        pow16(n + 1) == 16 * pow16(n),
{
    reveal_with_fuel(pow16, 8);
}

/// Appends `input` to `w` with every escape replaced by the character that it
/// names.
pub fn unescape_unicode(w: &mut String, input: &str)
    ensures
        final(w)@ == old(w)@ + unescaped(input.spec_bytes(), 0),
{
    broadcast use group_utf8_lib;

    let b = input.as_bytes();
    let mut ptr: usize = 0;
    proof {
        lemma_cuts_around_ascii(b@);
        if b@.len() > 0 {
            is_char_boundary_iff_not_is_continuation_byte(b@, 0);
        }
    }
    while ptr < b.len()
        invariant
            b@ == input.spec_bytes(),
            valid_utf8(b@),
            cuts_around_ascii(b@),
            ptr <= b@.len(),
            is_cut(b@, ptr as int),
            old(w)@ + unescaped(b@, 0) == w@ + unescaped(b@, ptr as int),
        decreases b.len() - ptr,
    {
        let ghost before = w@;
        if b[ptr] != BACKSLASH {
            let start = ptr;
            while ptr < b.len() && b[ptr] != BACKSLASH
                invariant
                    start <= ptr <= b@.len(),
                    plain_end(b@, start as int) == plain_end(b@, ptr as int),
                decreases b.len() - ptr,
            {
                ptr += 1;
            }
            proof {
                if ptr < b@.len() {
                    assert(b@[ptr as int] < 0x80);
                }
            }
            let text = str_slice(input, start, ptr);
            proof {
                broadcast use group_utf8_lib;

                assert(decode_utf8(encode_utf8(text@)) == text@);
                assert(text@ == piece(b@, start as int, ptr as int));
            }
            w.append(text);
            assert(w@ + unescaped(b@, ptr as int) =~= before + (piece(b@, start as int, ptr as int)
                + unescaped(b@, ptr as int)));
        } else {
            let (c, next) = read_escape(b, ptr);
            push_char(w, c);
            assert(w@ + unescaped(b@, next as int) =~= before + (seq![c] + unescaped(
                b@,
                next as int,
            )));
            ptr = next;
        }
    }
    assert(w@ + unescaped(b@, ptr as int) =~= w@);
}

/// `input` with every escape replaced by the character that it names.
pub fn unescape_unicode_to_string(input: &str) -> (r: String)
    ensures
        r@ == unescaped(input.spec_bytes(), 0),
{
    let mut r = String::new();
    unescape_unicode(&mut r, input);
    assert(r@ =~= unescaped(input.spec_bytes(), 0));
    r
}

} // verus!
