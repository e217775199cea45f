//! The input reader: UTF-8 character and whitespace-delimited integer
//! extraction from an in-memory byte buffer.
//!
//! The reader owns a UTF-8 byte buffer and a cursor, and models itself as the
//! sequence of characters not yet consumed plus a sticky end-of-input flag.
//! Once the flag is set, every further read returns nothing.

use vstd::prelude::*;
use vstd::utf8::*;

verus! {

/// True of the five ASCII whitespace characters.
pub open spec fn is_ws_char(c: char) -> bool {
    c == ' ' || c == '\t' || c == '\n' || c == '\u{c}' || c == '\r'
}

/// `s` without its maximal whitespace prefix.
pub open spec fn skip_ws(s: Seq<char>) -> Seq<char>
    decreases s.len(),
{
    if s.len() == 0 {
        s
    } else if is_ws_char(s[0]) {
        skip_ws(s.drop_first())
    } else {
        s
    }
}

/// The maximal prefix of `s` holding no whitespace.
pub open spec fn word_of(s: Seq<char>) -> Seq<char>
    decreases s.len(),
{
    if s.len() == 0 || is_ws_char(s[0]) {
        Seq::empty()
    } else {
        seq![s[0]] + word_of(s.drop_first())
    }
}

/// What reading one non-whitespace character returns on remaining input `s`
/// with end-of-input flag `eof`.
pub open spec fn read_char_value(s: Seq<char>, eof: bool) -> Option<char> {
    if eof || skip_ws(s).len() == 0 {
        None
    } else {
        Some(skip_ws(s)[0])
    }
}

/// The remaining input and flag after reading one non-whitespace character.
pub open spec fn read_char_rest(s: Seq<char>, eof: bool) -> (Seq<char>, bool) {
    if eof {
        (s, eof)
    } else {
        let t = skip_ws(s);
        if t.len() == 0 {
            (t, true)
        } else {
            (t.drop_first(), false)
        }
    }
}

/// What reading one whitespace-delimited word returns.
pub open spec fn read_word_value(s: Seq<char>, eof: bool) -> Option<Seq<char>> {
    if eof || skip_ws(s).len() == 0 {
        None
    } else {
        Some(word_of(skip_ws(s)))
    }
}

/// The remaining input and flag after reading one word. The whitespace
/// character that ends the word is consumed with it.
pub open spec fn read_word_rest(s: Seq<char>, eof: bool) -> (Seq<char>, bool) {
    if eof {
        (s, true)
    } else {
        let t = skip_ws(s);
        if t.len() == 0 {
            (t, true)
        } else {
            let u = t.skip(word_of(t).len() as int);
            if u.len() == 0 {
                (u, true)
            } else {
                (u.drop_first(), false)
            }
        }
    }
}

/// True of the ASCII decimal digits.
pub open spec fn is_digit_char(c: char) -> bool {
    48 <= c as u32 <= 57
}

pub open spec fn all_digits(s: Seq<char>) -> bool {
    forall|i: int| 0 <= i < s.len() ==> is_digit_char(#[trigger] s[i])
}

/// The value of a digit string read in base ten.
pub open spec fn digits_val(s: Seq<char>) -> int
    decreases s.len(),
{
    if s.len() == 0 {
        0
    } else {
        digits_val(s.drop_last()) * 10 + (s.last() as u32 - 48)
    }
}

/// The signed integer a word denotes: an optional sign, then one or more
/// ASCII digits, with a value that fits the stack's integer type; anything
/// else does not parse.
pub open spec fn parse_int_spec(w: Seq<char>) -> Option<isize> {
    let neg = w.len() > 0 && w[0] == '-';
    let ds = if w.len() > 0 && (w[0] == '-' || w[0] == '+') {
        w.drop_first()
    } else {
        w
    };
    if ds.len() == 0 || !all_digits(ds) {
        None
    } else {
        let v = if neg {
            -digits_val(ds)
        } else {
            digits_val(ds)
        };
        if v < isize::MIN || v > isize::MAX {
            None
        } else {
            Some(v as isize)
        }
    }
}

/// What reading one whitespace-delimited integer returns. A word that fails
/// to parse is consumed all the same.
pub open spec fn read_integer_value(s: Seq<char>, eof: bool) -> Option<isize> {
    match read_word_value(s, eof) {
        None => None,
        Some(w) => parse_int_spec(w),
    }
}

/// A nonempty whitespace-skipped sequence starts with a non-whitespace
/// character.
proof fn lemma_skip_ws_head(s: Seq<char>)
    ensures
        skip_ws(s).len() > 0 ==> !is_ws_char(skip_ws(s)[0]),
    decreases s.len(),
{
    if s.len() > 0 && is_ws_char(s[0]) {
        lemma_skip_ws_head(s.drop_first());
    }
}

/// The word prefix is never longer than the sequence itself.
proof fn lemma_word_of_len(s: Seq<char>)
    ensures
        word_of(s).len() <= s.len(),
    decreases s.len(),
{
    if s.len() > 0 && !is_ws_char(s[0]) {
        lemma_word_of_len(s.drop_first());
    }
}

/// A digit string has a non-negative value.
proof fn lemma_digits_nonneg(s: Seq<char>)
    requires
        all_digits(s),
    ensures
        digits_val(s) >= 0,
    decreases s.len(),
{
    if s.len() > 0 {
        assert(all_digits(s.drop_last()));
        lemma_digits_nonneg(s.drop_last());
    }
}

/// Appending digits never shrinks the value of a digit string.
proof fn lemma_digits_prefix_le(s: Seq<char>, i: int)
    requires
        all_digits(s),
        0 <= i <= s.len(),
    ensures
        digits_val(s.subrange(0, i)) <= digits_val(s),
    decreases s.len() - i,
{
    if i < s.len() {
        let t = s.subrange(0, i + 1);
        assert(all_digits(t));
        assert(t.drop_last() =~= s.subrange(0, i));
        lemma_digits_nonneg(s.subrange(0, i));
        assert(digits_val(t) == digits_val(s.subrange(0, i)) * 10 + (s[i] as u32 - 48));
        assert(digits_val(s.subrange(0, i)) * 10 >= digits_val(s.subrange(0, i))) by (nonlinear_arith)
            requires
                digits_val(s.subrange(0, i)) >= 0,
        ;
        lemma_digits_prefix_le(s, i + 1);
    } else {
        assert(s.subrange(0, i) =~= s);
    }
}

/// What a whitespace skip leaves is a suffix of the input.
proof fn lemma_skip_ws_suffix(s: Seq<char>)
    ensures
        skip_ws(s).is_suffix_of(s),
    decreases s.len(),
{
    if s.len() == 0 {
        assert(s.subrange(0, 0) =~= s);
    } else if is_ws_char(s[0]) {
        lemma_skip_ws_suffix(s.drop_first());
        lemma_suffix_trans(skip_ws(s), s.drop_first(), s);
    } else {
        assert(s.subrange(0, s.len() as int) =~= s);
    }
}

/// Suffixes compose.
proof fn lemma_suffix_trans(a: Seq<char>, b: Seq<char>, c: Seq<char>)
    requires
        a.is_suffix_of(b),
        b.is_suffix_of(c),
    ensures
        a.is_suffix_of(c),
{
    assert(a =~= c.subrange(c.len() - a.len(), c.len() as int));
}

/// Dropping leading characters leaves a suffix.
proof fn lemma_skip_suffix(s: Seq<char>, k: int)
    requires
        0 <= k <= s.len(),
    ensures
        s.skip(k).is_suffix_of(s),
{
    assert(s.skip(k) =~= s.subrange(s.len() - s.skip(k).len(), s.len() as int));
}

/// Reading a character only consumes input: the rest is a suffix, and a
/// reached end of input stays reached.
pub proof fn lemma_read_char_rest_suffix(s: Seq<char>, eof: bool)
    ensures
        read_char_rest(s, eof).0.is_suffix_of(s),
        eof ==> read_char_rest(s, eof).1,
{
    if !eof {
        let t = skip_ws(s);
        lemma_skip_ws_suffix(s);
        if t.len() == 0 {
        } else {
            assert(t.drop_first() =~= t.skip(1));
            lemma_skip_suffix(t, 1);
            lemma_suffix_trans(t.drop_first(), t, s);
        }
    } else {
        assert(s.subrange(0, s.len() as int) =~= s);
    }
}

/// Reading a word only consumes input, delimiter included.
pub proof fn lemma_read_word_rest_suffix(s: Seq<char>, eof: bool)
    ensures
        read_word_rest(s, eof).0.is_suffix_of(s),
        eof ==> read_word_rest(s, eof).1,
{
    if !eof {
        let t = skip_ws(s);
        lemma_skip_ws_suffix(s);
        if t.len() == 0 {
        } else {
            lemma_word_of_len(t);
            let u = t.skip(word_of(t).len() as int);
            lemma_skip_suffix(t, word_of(t).len() as int);
            lemma_suffix_trans(u, t, s);
            if u.len() > 0 {
                assert(u.drop_first() =~= u.skip(1));
                lemma_skip_suffix(u, 1);
                lemma_suffix_trans(u.drop_first(), u, s);
            }
        }
    } else {
        assert(s.subrange(0, s.len() as int) =~= s);
    }
}

/// Reader over an in-memory UTF-8 buffer, with a sticky end-of-input flag.
pub struct Stdin {
    buf: Vec<u8>,
    pos: usize,
    is_eof: bool,
}

impl Stdin {
    /// The cursor sits on a character boundary of a valid UTF-8 buffer.
    pub closed spec fn wf(self) -> bool {
        self.pos <= self.buf@.len() && valid_utf8(self.buf@.skip(self.pos as int))
    }

    /// The characters not yet consumed.
    pub closed spec fn rem(self) -> Seq<char> {
        decode_utf8(self.buf@.skip(self.pos as int))
    }

    /// Whether a read has already run into the end of the input.
    pub closed spec fn eof(self) -> bool {
        self.is_eof
    }

    /// A reader over the characters of `s`.
    pub fn new_with_string(s: &str) -> (r: Stdin)
        ensures
            r.wf(),
            r.rem() == s@,
            !r.eof(),
    {
        let buf = vstd::slice::slice_to_vec(s.as_bytes());
        proof {
            encode_utf8_valid_utf8(s@);
            encode_utf8_decode_utf8(s@);
            assert(buf@.skip(0) =~= buf@);
        }
        Stdin { buf, pos: 0, is_eof: false }
    }

    /// Reads the next character, whitespace included. Returns nothing at the
    /// end of the input and from then on.
    fn next(&mut self) -> (r: Option<char>)
        requires
            old(self).wf(),
        ensures
            final(self).wf(),
            old(self).eof() ==> r.is_none() && final(self).rem() == old(self).rem()
                && final(self).eof(),
            !old(self).eof() && old(self).rem().len() == 0 ==> r.is_none()
                && final(self).rem().len() == 0 && final(self).eof(),
            !old(self).eof() && old(self).rem().len() > 0 ==> r == Some(old(self).rem()[0])
                && final(self).rem() == old(self).rem().drop_first() && !final(self).eof(),
    {
        if self.is_eof {
            return None;
        }
        if self.pos >= self.buf.len() {
            self.is_eof = true;
            return None;
        }
        let ghost bytes = self.buf@.skip(self.pos as int);
        proof {
            assert(bytes.len() > 0);
            assert(valid_first_scalar(bytes) && valid_utf8(pop_first_scalar(bytes)));
        }
        let b0 = self.buf[self.pos];
        proof {
            assert(b0 == bytes[0]);
        }
        let (u, width): (u32, usize) = if b0 < 0x80 {
            let u = (b0 & 0x7f) as u32;
            proof {
                assert(u <= 0x7f) by (bit_vector)
                    requires
                        u == (b0 & 0x7f) as u32,
                ;
                assert(u == decode_first_codepoint(bytes));
                assert(is_scalar(u));
            }
            (u, 1)
        } else if b0 < 0xe0 {
            proof {
                assert(is_leading_byte_width_2(bytes[0]));
            }
            let b1 = self.buf[self.pos + 1];
            let u = (((b0 & 0x1f) as u32) << 6) | ((b1 & 0x3f) as u32);
            proof {
                assert(b1 == bytes[1]);
                assert(u <= 0x7ff) by (bit_vector)
                    requires
                        u == (((b0 & 0x1f) as u32) << 6) | ((b1 & 0x3f) as u32),
                ;
                assert(u == decode_first_codepoint(bytes));
                assert(is_scalar(u));
            }
            (u, 2)
        } else if b0 < 0xf0 {
            proof {
                assert(is_leading_byte_width_3(bytes[0]));
            }
            let b1 = self.buf[self.pos + 1];
            let b2 = self.buf[self.pos + 2];
            let u = (((b0 & 0x0f) as u32) << 12) | (((b1 & 0x3f) as u32) << 6) | ((b2
                & 0x3f) as u32);
            proof {
                assert(b1 == bytes[1] && b2 == bytes[2]);
                assert(u <= 0xffff) by (bit_vector)
                    requires
                        u == (((b0 & 0x0f) as u32) << 12) | (((b1 & 0x3f) as u32) << 6) | ((b2
                            & 0x3f) as u32),
                ;
                assert(u == decode_first_codepoint(bytes));
                assert(is_scalar(u));
            }
            (u, 3)
        } else {
            proof {
                assert(is_leading_byte_width_4(bytes[0]));
            }
            let b1 = self.buf[self.pos + 1];
            let b2 = self.buf[self.pos + 2];
            let b3 = self.buf[self.pos + 3];
            let u = (((b0 & 0x07) as u32) << 18) | (((b1 & 0x3f) as u32) << 12) | (((b2
                & 0x3f) as u32) << 6) | ((b3 & 0x3f) as u32);
            proof {
                assert(b1 == bytes[1] && b2 == bytes[2] && b3 == bytes[3]);
                assert(u == decode_first_codepoint(bytes));
                assert(is_scalar(u));
            }
            (u, 4)
        };
        proof {
            assert(u == decode_first_scalar(bytes));
            assert(width == length_of_first_scalar(bytes));
        }
        let c = char_from_u32(u);
        self.pos = self.pos + width;
        proof {
            char_u32_cast(c, u);
            assert(self.buf@.skip(self.pos as int) =~= pop_first_scalar(bytes));
            assert(old(self).rem() == seq![decode_first_scalar(bytes) as char] + decode_utf8(
                pop_first_scalar(bytes),
            ));
            assert(old(self).rem()[0] == c);
            assert(self.rem() =~= old(self).rem().drop_first());
        }
        Some(c)
    }

    /// Reads the next non-whitespace character. Returns nothing at the end
    /// of the input.
    pub fn read_char(&mut self) -> (r: Option<char>)
        requires
            old(self).wf(),
        ensures
            final(self).wf(),
            r == read_char_value(old(self).rem(), old(self).eof()),
            final(self).rem() == read_char_rest(old(self).rem(), old(self).eof()).0,
            final(self).eof() == read_char_rest(old(self).rem(), old(self).eof()).1,
    {
        loop
            invariant
                self.wf(),
                read_char_value(old(self).rem(), old(self).eof()) == read_char_value(
                    self.rem(),
                    self.eof(),
                ),
                read_char_rest(old(self).rem(), old(self).eof()) == read_char_rest(
                    self.rem(),
                    self.eof(),
                ),
            decreases self.rem().len(),
        {
            proof {
                lemma_skip_ws_head(self.rem());
            }
            match self.next() {
                None => {
                    return None;
                },
                Some(c) => {
                    if !is_ascii_ws(c) {
                        return Some(c);
                    }
                },
            }
        }
    }

    /// Reads the next whitespace-delimited word as its characters.
    #[verifier::loop_isolation(false)]
    fn read_word_chars(&mut self) -> (r: Option<Vec<char>>)
        requires
            old(self).wf(),
        ensures
            final(self).wf(),
            match r {
                Some(w) => read_word_value(old(self).rem(), old(self).eof()) == Some(w@),
                None => read_word_value(old(self).rem(), old(self).eof()).is_none(),
            },
            final(self).rem() == read_word_rest(old(self).rem(), old(self).eof()).0,
            final(self).eof() == read_word_rest(old(self).rem(), old(self).eof()).1,
    {
        let ghost t = skip_ws(old(self).rem());
        let first = match self.read_char() {
            None => {
                return None;
            },
            Some(c) => c,
        };
        proof {
            lemma_skip_ws_head(old(self).rem());
            assert(word_of(t) == seq![t[0]] + word_of(t.drop_first()));
            lemma_word_of_len(t.drop_first());
        }
        let mut l: Vec<char> = Vec::new();
        l.push(first);
        proof {
            assert(l@ =~= word_of(t).subrange(0, 1));
            assert(t.drop_first() =~= t.skip(1));
            assert(self.rem() == t.skip(1));
            assert(word_of(self.rem()) =~= word_of(t).skip(1));
        }
        loop
            invariant
                self.wf(),
                !self.eof(),
                1 <= l@.len() <= word_of(t).len(),
                l@ == word_of(t).subrange(0, l@.len() as int),
                self.rem() == t.skip(l@.len() as int),
                word_of(self.rem()) == word_of(t).skip(l@.len() as int),
                t == skip_ws(old(self).rem()),
                t.len() > 0,
                !old(self).eof(),
            decreases self.rem().len(),
        {
            let ghost j = l@.len() as int;
            let ghost cur = self.rem();
            match self.next() {
                None => {
                    // The input ended exactly at the end of the word.
                    proof {
                        assert(word_of(cur).len() == 0);
                        assert(l@ =~= word_of(t));
                        assert(self.rem() =~= t.skip(word_of(t).len() as int));
                    }
                    return Some(l);
                },
                Some(c) => {
                    if is_ascii_ws(c) {
                        // The delimiter is consumed along with the word.
                        proof {
                            assert(cur.len() > 0 && cur[0] == c);
                            assert(word_of(cur).len() == 0);
                            assert(l@ =~= word_of(t));
                            assert(cur == t.skip(word_of(t).len() as int));
                        }
                        return Some(l);
                    }
                    proof {
                        assert(cur.len() > 0 && cur[0] == c && !is_ws_char(c));
                        assert(word_of(cur) == seq![c] + word_of(cur.drop_first()));
                        assert(word_of(cur).len() >= 1);
                        assert(word_of(t).skip(j).len() >= 1);
                        assert(j + 1 <= word_of(t).len());
                        assert(l@.push(c) =~= word_of(t).subrange(0, j + 1)) by {
                            assert(word_of(t)[j] == word_of(t).skip(j)[0]);
                            assert(word_of(t).skip(j)[0] == word_of(cur)[0]);
                        };
                        assert(self.rem() == cur.drop_first());
                        assert(cur.drop_first() =~= t.skip(j + 1));
                        assert(word_of(cur).drop_first() =~= word_of(cur.drop_first()));
                        assert(word_of(t).skip(j).drop_first() =~= word_of(t).skip(j + 1));
                        assert(word_of(self.rem()) == word_of(t).skip(j + 1));
                    }
                    l.push(c);
                },
            }
        }
    }

    /// Reads the next word: a run of non-whitespace characters between
    /// whitespace or input ends. Returns nothing at the end of the input.
    pub fn read_word(&mut self) -> (r: Option<String>)
        requires
            old(self).wf(),
        ensures
            final(self).wf(),
            match r {
                Some(w) => read_word_value(old(self).rem(), old(self).eof()) == Some(w@),
                None => read_word_value(old(self).rem(), old(self).eof()).is_none(),
            },
            final(self).rem() == read_word_rest(old(self).rem(), old(self).eof()).0,
            final(self).eof() == read_word_rest(old(self).rem(), old(self).eof()).1,
    {
        match self.read_word_chars() {
            None => None,
            Some(l) => {
                let mut bytes: Vec<u8> = Vec::new();
                let mut i: usize = 0;
                while i < l.len()
                    invariant
                        i <= l@.len(),
                        bytes@ == encode_utf8(l@.subrange(0, i as int)),
                    decreases l@.len() - i,
                {
                    push_utf8(&mut bytes, l[i]);
                    proof {
                        lemma_encode_utf8_push(l@.subrange(0, i as int), l@[i as int]);
                        assert(l@.subrange(0, i as int).push(l@[i as int]) =~= l@.subrange(
                            0,
                            i as int + 1,
                        ));
                    }
                    i = i + 1;
                }
                proof {
                    assert(l@.subrange(0, l@.len() as int) =~= l@);
                    encode_utf8_valid_utf8(l@);
                    encode_utf8_decode_utf8(l@);
                }
                Some(string_from_utf8(bytes))
            },
        }
    }

    /// Reads the next word and parses it as a signed decimal integer.
    /// Returns nothing at the end of the input or when the word does not
    /// parse; either way the word is consumed.
    pub fn read_integer(&mut self) -> (r: Option<isize>)
        requires
            old(self).wf(),
        ensures
            final(self).wf(),
            r == read_integer_value(old(self).rem(), old(self).eof()),
            final(self).rem() == read_word_rest(old(self).rem(), old(self).eof()).0,
            final(self).eof() == read_word_rest(old(self).rem(), old(self).eof()).1,
    {
        match self.read_word_chars() {
            None => None,
            Some(l) => parse_isize(&l),
        }
    }
}

/// True of the five ASCII whitespace characters.
fn is_ascii_ws(c: char) -> (r: bool)
    ensures
        r == is_ws_char(c),
{
    c == ' ' || c == '\t' || c == '\n' || c == '\u{c}' || c == '\r'
}

/// Relies on char::from_u32: a value in the Unicode scalar ranges converts
/// to the character with that scalar value.
#[verifier::external_body]
pub(crate) fn char_from_u32(u: u32) -> (r: char)
    requires
        is_scalar(u),
    ensures
        r as u32 == u,
{
    char::from_u32(u).unwrap()
}

/// Relies on String::from_utf8: a buffer of valid UTF-8 becomes the string
/// that decodes from it.
#[verifier::external_body]
fn string_from_utf8(bytes: Vec<u8>) -> (r: String)
    requires
        valid_utf8(bytes@),
    ensures
        r@ == decode_utf8(bytes@),
{
    String::from_utf8(bytes).unwrap()
}

/// Encoding distributes over appending one character.
proof fn lemma_encode_utf8_push(s: Seq<char>, c: char)
    ensures
        encode_utf8(s.push(c)) == encode_utf8(s) + encode_scalar(c as u32),
    decreases s.len(),
{
    if s.len() == 0 {
        assert(s.push(c).len() == 1);
        assert(s.push(c)[0] == c);
        assert(s.push(c).drop_first() =~= Seq::<char>::empty());
        assert(encode_utf8(s.push(c)) == encode_scalar(c as u32) + encode_utf8(
            Seq::<char>::empty(),
        ));
        assert(encode_utf8(s.push(c)) =~= encode_scalar(c as u32));
        assert(encode_utf8(s) + encode_scalar(c as u32) =~= encode_scalar(c as u32));
    } else {
        assert(s.push(c).drop_first() =~= s.drop_first().push(c));
        lemma_encode_utf8_push(s.drop_first(), c);
        assert(encode_utf8(s.push(c)) =~= encode_utf8(s) + encode_scalar(c as u32));
    }
}

/// Appends the UTF-8 encoding of one character.
pub(crate) fn push_utf8(out: &mut Vec<u8>, c: char)
    ensures
        final(out)@ == old(out)@ + encode_scalar(c as u32),
{
    let u = c as u32;
    proof {
        char_is_scalar(c);
    }
    if u < 0x80 {
        out.push((u & 0x7f) as u8);
    } else if u < 0x800 {
        out.push(0xc0 | ((u >> 6) & 0x1f) as u8);
        out.push(0x80 | (u & 0x3f) as u8);
    } else if u < 0x10000 {
        out.push(0xe0 | ((u >> 12) & 0x0f) as u8);
        out.push(0x80 | ((u >> 6) & 0x3f) as u8);
        out.push(0x80 | (u & 0x3f) as u8);
    } else {
        out.push(0xf0 | ((u >> 18) & 0x7) as u8);
        out.push(0x80 | ((u >> 12) & 0x3f) as u8);
        out.push(0x80 | ((u >> 6) & 0x3f) as u8);
        out.push(0x80 | (u & 0x3f) as u8);
    }
    proof {
        assert(out@ =~= old(out)@ + encode_scalar(u));
    }
}

/// One more digit multiplies the value by ten and adds the digit.
proof fn lemma_digits_step(ds: Seq<char>, k: int)
    requires
        0 <= k < ds.len(),
    ensures
        digits_val(ds.subrange(0, k + 1)) == digits_val(ds.subrange(0, k)) * 10 + (ds[k] as u32
            - 48),
        all_digits(ds.subrange(0, k)) && is_digit_char(ds[k]) ==> all_digits(
            ds.subrange(0, k + 1),
        ),
{
    let pre = ds.subrange(0, k);
    let now = ds.subrange(0, k + 1);
    assert(now.drop_last() =~= pre);
    assert(now.last() == ds[k]);
    if all_digits(pre) && is_digit_char(ds[k]) {
        assert forall|j: int| 0 <= j < now.len() implies is_digit_char(#[trigger] now[j]) by {
            if j < k {
                assert(now[j] == pre[j]);
                assert(is_digit_char(pre[j]));
            } else {
                assert(now[j] == ds[k]);
            }
        }
    }
}

/// Parses a word as a signed decimal integer: an optional sign, then one or
/// more ASCII digits, with a value that fits the stack's integer type.
#[verifier::rlimit(50)]
#[verifier::loop_isolation(false)]
fn parse_isize(w: &Vec<char>) -> (r: Option<isize>)
    ensures
        r == parse_int_spec(w@),
{
    let n = w.len();
    let mut start: usize = 0;
    let mut neg = false;
    if n > 0 {
        let c0 = w[0];
        if c0 == '-' {
            neg = true;
            start = 1;
        } else if c0 == '+' {
            start = 1;
        }
    }
    let ghost ds = w@.skip(start as int);
    proof {
        if start == 1 {
            assert(ds =~= w@.drop_first());
        } else {
            assert(ds =~= w@);
        }
    }
    if start == n {
        return None;
    }
    let mut acc: isize = 0;
    let mut i = start;
    while i < n
        invariant
            start <= i <= n,
            n == w@.len(),
            start < n,
            ds == w@.skip(start as int),
            all_digits(ds.subrange(0, i - start)),
            acc == -digits_val(ds.subrange(0, i - start)),
            acc <= 0,
        decreases n - i,
    {
        let c = w[i];
        let u = c as u32;
        proof {
            assert(ds[i - start] == w@[i as int]);
        }
        if u < 48 || u > 57 {
            proof {
                assert(!is_digit_char(ds[i - start]));
                assert(!all_digits(ds));
            }
            return None;
        }
        let d = (u - 48) as isize;
        let ghost pre = ds.subrange(0, i - start);
        let ghost now = ds.subrange(0, i + 1 - start);
        proof {
            assert(is_digit_char(ds[i - start]));
            lemma_digits_step(ds, i - start);
            assert(all_digits(now));
            assert(digits_val(now) == digits_val(pre) * 10 + (ds[i - start] as u32 - 48));
            lemma_digits_nonneg(pre);
        }
        let acc10 = match acc.checked_mul(10) {
            Some(a) => a,
            None => {
                proof {
                    assert(acc as int * 10 < isize::MIN);
                    assert(digits_val(now) > -(isize::MIN as int));
                    lemma_parse_overflow(ds, i + 1 - start);
                }
                return None;
            },
        };
        let a2 = match acc10.checked_sub(d) {
            Some(a) => a,
            None => {
                proof {
                    assert((acc10 as int) - (d as int) < isize::MIN);
                    assert(digits_val(now) > -(isize::MIN as int));
                    lemma_parse_overflow(ds, i + 1 - start);
                }
                return None;
            },
        };
        acc = a2;
        i = i + 1;
    }
    proof {
        assert(ds.subrange(0, n - start) =~= ds);
        lemma_digits_nonneg(ds);
    }
    if neg {
        Some(acc)
    } else {
        if acc == isize::MIN {
            return None;
        }
        Some(-acc)
    }
}

/// Once some digit prefix overflows the integer range, the whole digit
/// string does.
proof fn lemma_parse_overflow(ds: Seq<char>, k: int)
    requires
        all_digits(ds.subrange(0, k)),
        0 <= k <= ds.len(),
        digits_val(ds.subrange(0, k)) > -(isize::MIN as int),
    ensures
        !all_digits(ds) || digits_val(ds) > -(isize::MIN as int),
{
    if all_digits(ds) {
        lemma_digits_prefix_le(ds, k);
    }
}

} // verus!
