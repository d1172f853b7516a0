use vstd::prelude::*;
use vstd::string::*;
use vstd::utf8::*;

verus! {

/// A position at which a UTF-8 byte string may be cut: an end of the string, or
/// a byte that does not continue a character.
pub open spec fn is_cut(bytes: Seq<u8>, i: int) -> bool {
    0 <= i <= bytes.len() && (i < bytes.len() ==> !is_continuation_byte(bytes[i]))
}

/// Every byte of an ASCII character has a cut before it and one after it.
pub open spec fn cuts_around_ascii(bytes: Seq<u8>) -> bool {
    forall|i: int|
        0 <= i < bytes.len() && #[trigger] bytes[i] < 0x80 ==> is_cut(bytes, i) && is_cut(
            bytes,
            i + 1,
        )
}

/// Whether the character has the Unicode property White_Space, by which
/// `str::trim_end` decides what to remove.
pub open spec fn white_space(c: char) -> bool {
    let n = c as u32;
    0x09 <= n <= 0x0D || n == 0x20 || n == 0x85 || n == 0xA0 || n == 0x1680 || 0x2000 <= n
        <= 0x200A || n == 0x2028 || n == 0x2029 || n == 0x202F || n == 0x205F || n == 0x3000
}

/// What is left of `s` once its trailing white space is removed.
pub open spec fn trimmed(s: Seq<char>) -> Seq<char>
    decreases s.len(),
{
    if s.len() > 0 && white_space(s.last()) {
        trimmed(s.drop_last())
    } else {
        s
    }
}

/// A prefix of `s` that ends in no white space and leaves only white space
/// behind is `trimmed(s)`.
pub proof fn lemma_trimmed_unique(s: Seq<char>, n: int)
    requires
        0 <= n <= s.len(),
        n > 0 ==> !white_space(s[n - 1]),
        forall|i: int| n <= i < s.len() ==> white_space(#[trigger] s[i]),
    ensures
        trimmed(s) == s.subrange(0, n),
    decreases s.len(),
{
    if s.len() > 0 && white_space(s.last()) {
        assert(n < s.len());
        lemma_trimmed_unique(s.drop_last(), n);
        assert(s.drop_last().subrange(0, n) =~= s.subrange(0, n));
    } else {
        assert(n == s.len());
        assert(s =~= s.subrange(0, n));
    }
}

/// In a valid UTF-8 string the character that starts at a boundary ends at a
/// boundary.
proof fn lemma_boundary_step(bytes: Seq<u8>, i: int)
    requires
        valid_utf8(bytes),
        is_char_boundary(bytes, i),
        0 <= i < bytes.len(),
    ensures
        is_char_boundary(
            bytes,
            i + length_of_first_scalar(bytes.subrange(i, bytes.len() as int)),
        ),
    decreases bytes.len(),
{
    reveal_with_fuel(is_char_boundary, 2);
    reveal_with_fuel(valid_utf8, 2);
    if i == 0 {
        assert(bytes.subrange(0, bytes.len() as int) =~= bytes);
        let n = length_of_first_scalar(bytes);
        assert(is_char_boundary(pop_first_scalar(bytes), 0));
    } else {
        let n = length_of_first_scalar(bytes);
        let rest = pop_first_scalar(bytes);
        assert(i >= n);
        assert(is_char_boundary(rest, i - n));
        if i - n < rest.len() {
            lemma_boundary_step(rest, i - n);
            assert(rest.subrange(i - n, rest.len() as int) =~= bytes.subrange(
                i,
                bytes.len() as int,
            ));
        }
    }
}

/// Valid UTF-8 has a cut on both sides of every ASCII byte.
pub proof fn lemma_cuts_around_ascii(bytes: Seq<u8>)
    requires
        valid_utf8(bytes),
    ensures
        cuts_around_ascii(bytes),
{
    assert forall|i: int| 0 <= i < bytes.len() && #[trigger] bytes[i] < 0x80 implies is_cut(
        bytes,
        i,
    ) && is_cut(bytes, i + 1) by {
        is_char_boundary_iff_not_is_continuation_byte(bytes, i);
        lemma_boundary_step(bytes, i);
        let tail = bytes.subrange(i, bytes.len() as int);
        assert(tail[0] == bytes[i]);
        assert(length_of_first_scalar(tail) == 1);
        if i + 1 < bytes.len() {
            is_char_boundary_iff_not_is_continuation_byte(bytes, i + 1);
        }
    }
}

/// Cuts of the byte string are character boundaries of the text.
pub proof fn lemma_cut_is_boundary(bytes: Seq<u8>, i: int)
    requires
        valid_utf8(bytes),
        is_cut(bytes, i),
    ensures
        is_char_boundary(bytes, i),
{
    if i < bytes.len() {
        is_char_boundary_iff_not_is_continuation_byte(bytes, i);
    } else {
        is_char_boundary_start_end_of_seq(bytes);
    }
}

/// `str::trim_end` returns the prefix of `s` that is left once every trailing
/// character with the Unicode property White_Space is removed.
#[verifier::external_body]
fn str_trim_end<'a>(s: &'a str) -> (r: &'a str)
    ensures
        r@.len() <= s@.len(),
        r@ == s@.subrange(0, r@.len() as int),
        r@.len() > 0 ==> !white_space(r@.last()),
        forall|i: int| r@.len() <= i < s@.len() ==> white_space(#[trigger] s@[i]),
{
    s.trim_end()
}

/// The part of `s` between two character boundaries given as byte offsets.
pub fn str_slice<'a>(s: &'a str, start: usize, end: usize) -> (r: &'a str)
    requires
        start <= end,
        is_cut(s.spec_bytes(), start as int),
        is_cut(s.spec_bytes(), end as int),
    ensures
        r.spec_bytes() == s.spec_bytes().subrange(start as int, end as int),
{
    broadcast use group_utf8_lib;

    proof {
        lemma_cut_is_boundary(s.spec_bytes(), end as int);
    }
    let (head, _) = s.split_at(end);
    proof {
        assert(head.spec_bytes() =~= s.spec_bytes().subrange(0, end as int));
        assert(is_cut(head.spec_bytes(), start as int));
        lemma_cut_is_boundary(head.spec_bytes(), start as int);
    }
    let (_, r) = head.split_at(start);
    assert(r.spec_bytes() =~= s.spec_bytes().subrange(start as int, end as int));
    r
}

/// Whether two byte strings hold the same bytes.
pub fn bytes_eq(a: &[u8], b: &[u8]) -> (r: bool)
    ensures
        r == (a@ == b@),
{
    if a.len() != b.len() {
        return false;
    }
    let mut i: usize = 0;
    while i < a.len()
        invariant
            a.len() == b.len(),
            i <= a.len(),
            forall|j: int| 0 <= j < i ==> a@[j] == b@[j],
        decreases a.len() - i,
    {
        if a[i] != b[i] {
            return false;
        }
        i += 1;
    }
    assert(a@ =~= b@);
    true
}

/// Text equality of two strings decided on their bytes.
pub fn str_eq(a: &str, b: &str) -> (r: bool)
    ensures
        r == (a@ == b@),
{
    broadcast use group_utf8_lib;

    let r = bytes_eq(a.as_bytes(), b.as_bytes());
    proof {
        if r {
            assert(decode_utf8(encode_utf8(a@)) == a@);
            assert(decode_utf8(encode_utf8(b@)) == b@);
        }
    }
    r
}

/// Text of which the parser reads bytes and cuts pieces: an owned string or a
/// borrowed one.
pub trait Slice: Sized {
    /// The characters of the text.
    spec fn text(&self) -> Seq<char>;

    /// The piece between the byte offsets `start` and `end`.
    fn slice(&self, start: usize, end: usize) -> (r: Self)
        requires
            start <= end,
            is_cut(encode_utf8(self.text()), start as int),
            is_cut(encode_utf8(self.text()), end as int),
        ensures
            encode_utf8(r.text()) == encode_utf8(self.text()).subrange(start as int, end as int),
    ;

    /// The byte at offset `idx`, if the text is that long.
    fn get_char(&self, idx: usize) -> (r: Option<u8>)
        ensures
            r == if idx < encode_utf8(self.text()).len() {
                Some(encode_utf8(self.text())[idx as int])
            } else {
                None
            },
    ;

    /// Length in bytes.
    fn length(&self) -> (n: usize)
        ensures
            n == encode_utf8(self.text()).len(),
    ;

    /// Removes trailing white space.
    fn trim(&mut self)
        ensures
            final(self).text() == trimmed(old(self).text()),
    ;

    /// The text as a string slice.
    fn as_str(&self) -> (r: &str)
        ensures
            r@ == self.text(),
    ;

    /// Appends the text to `w`.
    fn write(&self, w: &mut String)
        ensures
            final(w)@ == old(w)@ + self.text(),
    ;

    /// An owned or borrowed copy of the same text.
    fn duplicate(&self) -> (r: Self)
        ensures
            r.text() == self.text(),
    ;

    /// Whether the text is that of `other`.
    fn eq_str(&self, other: &str) -> (r: bool)
        ensures
            r == (self.text() == other@),
    ;
}

impl Slice for String {
    open spec fn text(&self) -> Seq<char> {
        self@
    }

    fn slice(&self, start: usize, end: usize) -> (r: String) {
        let piece = str_slice(self.as_str(), start, end);
        String::from_str(piece)
    }

    fn get_char(&self, idx: usize) -> (r: Option<u8>) {
        let b = self.as_str().as_bytes();
        if idx < b.len() {
            Some(b[idx])
        } else {
            None
        }
    }

    fn length(&self) -> (n: usize) {
        self.as_str().as_bytes().len()
    }

    fn trim(&mut self) {
        let t = str_trim_end(self.as_str());
        proof {
            lemma_trimmed_unique(self@, t@.len() as int);
        }
        let owned = String::from_str(t);
        *self = owned;
    }

    fn as_str(&self) -> (r: &str) {
        String::as_str(self)
    }

    fn write(&self, w: &mut String) {
        w.append(self.as_str());
    }

    fn duplicate(&self) -> (r: String) {
        self.clone()
    }

    fn eq_str(&self, other: &str) -> (r: bool) {
        str_eq(self.as_str(), other)
    }
}

impl<'s> Slice for &'s str {
    open spec fn text(&self) -> Seq<char> {
        self@
    }

    fn slice(&self, start: usize, end: usize) -> (r: &'s str) {
        str_slice(*self, start, end)
    }

    fn get_char(&self, idx: usize) -> (r: Option<u8>) {
        let b = self.as_bytes();
        if idx < b.len() {
            Some(b[idx])
        } else {
            None
        }
    }

    fn length(&self) -> (n: usize) {
        self.as_bytes().len()
    }

    fn trim(&mut self) {
        let t = str_trim_end(*self);
        proof {
            lemma_trimmed_unique(self@, t@.len() as int);
        }
        *self = t;
    }

    fn as_str(&self) -> (r: &str) {
        *self
    }

    fn write(&self, w: &mut String) {
        w.append(*self);
    }

    fn duplicate(&self) -> (r: &'s str) {
        *self
    }

    fn eq_str(&self, other: &str) -> (r: bool) {
        str_eq(*self, other)
    }
}

} // verus!
