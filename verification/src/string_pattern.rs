//! A string to be matched in a JSON document: the bytes of its shortest
//! representation, and for each position the other ways in which the
//! character there may be escaped.

use rsonpath_syntax::str::JsonString;
use vstd::prelude::*;
use vstd::slice::slice_subrange;
use vstd::std_specs::cmp::PartialEqSpecImpl;
use vstd::utf8::encode_scalar;

verus! {

/// The length of the blocks in which a document is scanned; a pattern's
/// bytes are padded by as many spaces.
pub const BLOCK_SIZE: usize = 64;

/// The byte of a space.
pub const JSON_SPACE_BYTE: u8 = 0x20;

/// Another way to write the character at a position of the pattern. A code
/// holds the four hexadecimal digits of a `\uXXXX` escape, the first digit
/// in its lowest byte.
#[derive(Clone, Copy, Debug, PartialEq, Eq, Structural)]
pub enum AlternativeRepresentation {
    /// `\u` and the code, in place of the given number of bytes.
    SlashUSingle(u32, u8),
    /// `\u` and the first code, `\u` and the second code, in place of the
    /// given number of bytes.
    SlashUPair(u32, u32, u8),
    /// `u` and the code, behind the backslash of a two-byte escape.
    USingle(u32),
    /// A backslash before the byte, or `\u` and the code.
    SlashByteOrUSingle(u8, u32),
    /// No other way.
    Absent,
}

/// The lower-case hexadecimal digit of a number below 16.
pub open spec fn spec_encode_nibble(nibble: u8) -> u8 {
    if nibble <= 9 {
        (0x30 + nibble) as u8
    } else {
        (0x61 + nibble - 10) as u8
    }
}

/// The four hexadecimal digits of a UTF-16 unit, the first digit in the
/// lowest byte.
pub open spec fn spec_encode(utf16: u16) -> u32 {
    let high = (utf16 / 256) as u8;
    let low = (utf16 % 256) as u8;
    (spec_encode_nibble(high / 16) + 0x100 * spec_encode_nibble(high % 16) + 0x1_0000
        * spec_encode_nibble(low / 16) + 0x100_0000 * spec_encode_nibble(low % 16)) as u32
}

/// The number of UTF-16 units of a character.
pub open spec fn utf16_len(c: char) -> nat {
    if (c as u32) < 0x1_0000 {
        1
    } else {
        2
    }
}

/// The first UTF-16 unit of a character: the character itself, or the high
/// surrogate.
pub open spec fn utf16_first(c: char) -> u16 {
    let v = c as u32;
    if v < 0x1_0000 {
        v as u16
    } else {
        (0xD800 + (v - 0x1_0000) / 0x400) as u16
    }
}

/// The low surrogate of a character of two UTF-16 units.
pub open spec fn utf16_second(c: char) -> u16 {
    (0xDC00 + ((c as u32) - 0x1_0000) % 0x400) as u16
}

/// The UTF-16 units of a character.
pub fn utf16_units(c: char) -> (r: (u16, Option<u16>))
    ensures
        r.0 == utf16_first(c),
        r.1 == if utf16_len(c) == 1 {
            None
        } else {
            Some(utf16_second(c))
        },
{
    let v: u32 = c as u32;
    proof {
        vstd::utf8::char_is_scalar(c);
    }
    if v < 0x1_0000 {
        (v as u16, None)
    } else {
        let w: u32 = v - 0x1_0000;
        ((0xD800 + w / 0x400) as u16, Some((0xDC00 + w % 0x400) as u16))
    }
}

/// Appends the UTF-8 encoding of a character and returns its length.
pub fn push_utf8(bytes: &mut Vec<u8>, c: char) -> (len: usize)
    ensures
        final(bytes)@ == old(bytes)@ + encode_scalar(c as u32),
        len == encode_scalar(c as u32).len(),
        1 <= len <= 4,
{
    let v: u32 = c as u32;
    proof {
        vstd::utf8::char_is_scalar(c);
    }
    if v <= 0x7F {
        assert(v & 0x7F <= 0xFF) by (bit_vector);
        bytes.push((v & 0x7F) as u8);
        assert(bytes@ =~= old(bytes)@ + encode_scalar(v));
        1
    } else if v <= 0x7FF {
        assert((v >> 6) & 0x1F <= 0xFF && v & 0x3F <= 0xFF) by (bit_vector);
        bytes.push(0xC0 | ((v >> 6) & 0x1F) as u8);
        bytes.push(0x80 | (v & 0x3F) as u8);
        assert(bytes@ =~= old(bytes)@ + encode_scalar(v));
        2
    } else if v <= 0xFFFF {
        assert((v >> 12) & 0x0F <= 0xFF && (v >> 6) & 0x3F <= 0xFF && v & 0x3F <= 0xFF)
            by (bit_vector);
        bytes.push(0xE0 | ((v >> 12) & 0x0F) as u8);
        bytes.push(0x80 | ((v >> 6) & 0x3F) as u8);
        bytes.push(0x80 | (v & 0x3F) as u8);
        assert(bytes@ =~= old(bytes)@ + encode_scalar(v));
        3
    } else {
        assert((v >> 18) & 0x7 <= 0xFF && (v >> 12) & 0x3F <= 0xFF && (v >> 6) & 0x3F <= 0xFF && v
            & 0x3F <= 0xFF) by (bit_vector);
        bytes.push(0xF0 | ((v >> 18) & 0x7) as u8);
        bytes.push(0x80 | ((v >> 12) & 0x3F) as u8);
        bytes.push(0x80 | ((v >> 6) & 0x3F) as u8);
        bytes.push(0x80 | (v & 0x3F) as u8);
        assert(bytes@ =~= old(bytes)@ + encode_scalar(v));
        4
    }
}

/// The alternatives of a character that takes `len` bytes: `repr` at its
/// first and at its last byte, nothing in between.
pub open spec fn regular_alternatives(repr: AlternativeRepresentation, len: nat) -> Seq<
    AlternativeRepresentation,
> {
    Seq::new(
        len,
        |i: int|
            if i == 0 || i == len - 1 {
                repr
            } else {
                AlternativeRepresentation::Absent
            },
    )
}

/// The alternative representation of a character that is written as itself
/// in `len` bytes: one `\u` escape, or a pair of them.
pub open spec fn regular_repr(c: char, len: nat) -> AlternativeRepresentation {
    if utf16_len(c) == 1 {
        AlternativeRepresentation::SlashUSingle(spec_encode(utf16_first(c)), len as u8)
    } else {
        AlternativeRepresentation::SlashUPair(
            spec_encode(utf16_first(c)),
            spec_encode(utf16_second(c)),
            len as u8,
        )
    }
}

/// `limit + more`, or the largest number where that is too large.
pub open spec fn saturating(limit: usize, more: nat) -> usize {
    if limit + more > usize::MAX {
        usize::MAX
    } else {
        (limit + more) as usize
    }
}

/// A pattern that is being built, character by character.
pub struct StringPatternBuilder {
    pub bytes: Vec<u8>,
    pub alternatives: Vec<AlternativeRepresentation>,
    pub len_limit: usize,
}

impl StringPatternBuilder {
    /// A builder that holds the opening quote, with room for `byte_len`
    /// bytes.
    pub fn new(byte_len: usize) -> (this: Self)
        ensures
            this.bytes@ == seq![0x22u8],
            this.alternatives@ == seq![AlternativeRepresentation::Absent],
            this.len_limit == 1,
    {
        let mut this = Self {
            bytes: Vec::with_capacity(byte_len),
            alternatives: Vec::with_capacity(byte_len),
            len_limit: 0,
        };
        this.bytes.push(0x22);
        this.alternatives.push(AlternativeRepresentation::Absent);
        this.len_limit = this.len_limit.saturating_add(1);
        this
    }

    /// Writes a two-byte escape: a backslash and `code_letter`. Behind the
    /// backslash the character may also stand as a `u` escape.
    pub fn short_escape(&mut self, code_letter: u8, c: char)
        requires
            utf16_len(c) == 1,
        ensures
            final(self).bytes@ == old(self).bytes@ + seq![0x5cu8, code_letter],
            final(self).alternatives@ == old(self).alternatives@ + seq![
                AlternativeRepresentation::Absent,
                AlternativeRepresentation::USingle(spec_encode(utf16_first(c))),
            ],
            final(self).len_limit == saturating(old(self).len_limit, 6),
    {
        self.bytes.push(0x5c);
        self.bytes.push(code_letter);
        let utf16 = utf16_units(c);
        let code = Self::encode(utf16.0);
        self.alternatives.push(AlternativeRepresentation::Absent);
        self.alternatives.push(AlternativeRepresentation::USingle(code));
        self.len_limit = self.len_limit.saturating_add(6);
        assert(self.bytes@ =~= old(self).bytes@ + seq![0x5cu8, code_letter]);
        assert(self.alternatives@ =~= old(self).alternatives@ + seq![
            AlternativeRepresentation::Absent,
            AlternativeRepresentation::USingle(spec_encode(utf16_first(c))),
        ]);
    }

    /// Writes the six bytes `\u00XY` of a control character that has no
    /// shorter escape, `XY` being the character's lowest byte. There is no
    /// other way to write it.
    pub fn long_escape(&mut self, c: char)
        ensures
            final(self).bytes@ == old(self).bytes@ + long_escape_bytes(c),
            final(self).alternatives@ == old(self).alternatives@ + Seq::new(
                6,
                |i: int| AlternativeRepresentation::Absent,
            ),
            final(self).len_limit == saturating(old(self).len_limit, 6),
    {
        let byte: u8 = low_byte(c);
        assert((byte & 0xF0) >> 4 == byte / 16 && byte & 0x0F == byte % 16) by (bit_vector);
        self.bytes.push(0x5c);
        self.bytes.push(0x75);
        self.bytes.push(0x30);
        self.bytes.push(0x30);
        self.bytes.push(Self::encode_nibble((byte & 0xF0) >> 4));
        self.bytes.push(Self::encode_nibble(byte & 0x0F));
        let mut i: usize = 0;
        while i < 6
            invariant
                i <= 6,
                self.alternatives@ == old(self).alternatives@ + Seq::new(
                    i as nat,
                    |j: int| AlternativeRepresentation::Absent,
                ),
                self.bytes@ == old(self).bytes@ + long_escape_bytes(c),
                self.len_limit == old(self).len_limit,
            decreases 6 - i,
        {
            self.alternatives.push(AlternativeRepresentation::Absent);
            i += 1;
            assert(self.alternatives@ =~= old(self).alternatives@ + Seq::new(
                i as nat,
                |j: int| AlternativeRepresentation::Absent,
            ));
        }
        self.len_limit = self.len_limit.saturating_add(6);
    }

    /// Writes a slash or a single quote as itself. It may also stand behind
    /// a backslash, or as a `\u` escape.
    pub fn special_escape(&mut self, c: char)
        requires
            utf16_len(c) == 1,
        ensures
            final(self).bytes@ == old(self).bytes@ + seq![spec_low_byte(c)],
            final(self).alternatives@ == old(self).alternatives@ + seq![
                AlternativeRepresentation::SlashByteOrUSingle(
                    spec_low_byte(c),
                    spec_encode(utf16_first(c)),
                ),
            ],
            final(self).len_limit == saturating(old(self).len_limit, 6),
    {
        let byte: u8 = low_byte(c);
        self.bytes.push(byte);
        let utf16 = utf16_units(c);
        let code = Self::encode(utf16.0);
        self.alternatives.push(AlternativeRepresentation::SlashByteOrUSingle(byte, code));
        self.len_limit = self.len_limit.saturating_add(6);
        assert(self.bytes@ =~= old(self).bytes@ + seq![spec_low_byte(c)]);
        assert(self.alternatives@ =~= old(self).alternatives@ + seq![
            AlternativeRepresentation::SlashByteOrUSingle(
                spec_low_byte(c),
                spec_encode(utf16_first(c)),
            ),
        ]);
    }

    /// Writes a character as its UTF-8 bytes. It may also stand as one `\u`
    /// escape, or as a pair of them where it takes two UTF-16 units.
    pub fn regular_escape(&mut self, c: char)
        ensures
            final(self).bytes@ == old(self).bytes@ + encode_scalar(c as u32),
            final(self).alternatives@ == old(self).alternatives@ + regular_alternatives(
                regular_repr(c, encode_scalar(c as u32).len()),
                encode_scalar(c as u32).len(),
            ),
            final(self).len_limit == saturating(
                old(self).len_limit,
                if utf16_len(c) == 1 {
                    6
                } else {
                    12
                },
            ),
    {
        let utf16 = utf16_units(c);
        let len: usize = push_utf8(&mut self.bytes, c);
        let repr;
        match utf16.1 {
            None => {
                let code = Self::encode(utf16.0);
                repr = AlternativeRepresentation::SlashUSingle(code, len as u8);
                self.alternatives.push(repr);
                self.len_limit = self.len_limit.saturating_add(6);
            },
            Some(second) => {
                let code1 = Self::encode(utf16.0);
                let code2 = Self::encode(second);
                repr = AlternativeRepresentation::SlashUPair(code1, code2, len as u8);
                self.alternatives.push(repr);
                self.len_limit = self.len_limit.saturating_add(12);
            },
        }
        let ghost first = self.alternatives@;
        let mut i: usize = 1;
        while i < len
            invariant
                1 <= i,
                i <= len,
                1 <= len <= 4,
                len == encode_scalar(c as u32).len(),
                repr == regular_repr(c, len as nat),
                first == old(self).alternatives@.push(repr),
                self.alternatives@ == first + Seq::new(
                    (i - 1) as nat,
                    |j: int| AlternativeRepresentation::Absent,
                ),
                self.bytes@ == old(self).bytes@ + encode_scalar(c as u32),
                self.len_limit == saturating(
                    old(self).len_limit,
                    if utf16_len(c) == 1 {
                        6
                    } else {
                        12
                    },
                ),
            decreases len - i,
        {
            self.alternatives.push(AlternativeRepresentation::Absent);
            i += 1;
            assert(self.alternatives@ =~= first + Seq::new(
                (i - 1) as nat,
                |j: int| AlternativeRepresentation::Absent,
            ));
        }
        let last_idx: usize = self.alternatives.len() - 1;
        self.alternatives[last_idx] = repr;
        assert(self.alternatives@ =~= old(self).alternatives@ + regular_alternatives(
            repr,
            len as nat,
        ));
    }

    /// The four hexadecimal digits of a UTF-16 unit, the first digit in the
    /// lowest byte.
    pub fn encode(utf16: u16) -> (r: u32)
        ensures
            r == spec_encode(utf16),
    {
        let high: u8 = (utf16 >> 8) as u8;
        let low: u8 = (utf16 & 0xFF) as u8;
        assert(utf16 >> 8 == utf16 / 256 && utf16 & 0xFF == utf16 % 256) by (bit_vector);
        assert((high & 0xF0) >> 4 == high / 16 && high & 0x0F == high % 16) by (bit_vector);
        assert((low & 0xF0) >> 4 == low / 16 && low & 0x0F == low % 16) by (bit_vector);
        let d0: u32 = Self::encode_nibble((high & 0xF0) >> 4) as u32;
        let d1: u32 = Self::encode_nibble(high & 0x0F) as u32;
        let d2: u32 = Self::encode_nibble((low & 0xF0) >> 4) as u32;
        let d3: u32 = Self::encode_nibble(low & 0x0F) as u32;
        assert(d0 | d1 << 8 | d2 << 16 | d3 << 24 == d0 + 0x100 * d1 + 0x1_0000 * d2 + 0x100_0000
            * d3) by (bit_vector)
            requires
                d0 < 0x100,
                d1 < 0x100,
                d2 < 0x100,
                d3 < 0x100,
        ;
        d0 | d1 << 8 | d2 << 16 | d3 << 24
    }

    /// The lower-case hexadecimal digit of a number below 16.
    pub fn encode_nibble(nibble: u8) -> (r: u8)
        requires
            nibble <= 0x0F,
        ensures
            r == spec_encode_nibble(nibble),
    {
        if nibble <= 0x09 {
            0x30 + nibble
        } else {
            0x61 + nibble - 0x0A
        }
    }
}

/// The lowest byte of a character's number.
pub open spec fn spec_low_byte(c: char) -> u8 {
    ((c as u32) % 0x100) as u8
}

/// The lowest byte of a character's number.
pub fn low_byte(c: char) -> (r: u8)
    ensures
        r == spec_low_byte(c),
{
    let v: u32 = c as u32;
    assert(v & 0xFF == v % 0x100) by (bit_vector);
    (v & 0xFF) as u8
}

/// The six bytes `\u00XY`, `XY` being the lowest byte of the character.
pub open spec fn long_escape_bytes(c: char) -> Seq<u8> {
    seq![
        0x5cu8,
        0x75u8,
        0x30u8,
        0x30u8,
        spec_encode_nibble(spec_low_byte(c) / 16),
        spec_encode_nibble(spec_low_byte(c) % 16),
    ]
}

/// The letter of the two-byte escape of a character that has one.
pub open spec fn short_escape_letter(c: char) -> Option<u8> {
    if c == '\u{0008}' {
        Some(0x62u8)
    } else if c == '\u{000C}' {
        Some(0x66u8)
    } else if c == '\n' {
        Some(0x6eu8)
    } else if c == '\r' {
        Some(0x72u8)
    } else if c == '\t' {
        Some(0x74u8)
    } else if c == '"' {
        Some(0x22u8)
    } else if c == '\\' {
        Some(0x5cu8)
    } else {
        None
    }
}

/// Whether a character is written as itself but may also stand behind a
/// backslash: the slash and the single quote.
pub open spec fn is_special(c: char) -> bool {
    c == '/' || c == '\''
}

/// The bytes of the shortest representation of a character inside a JSON
/// string.
pub open spec fn char_bytes(c: char) -> Seq<u8> {
    match short_escape_letter(c) {
        Some(letter) => seq![0x5cu8, letter],
        None => if (c as u32) <= 0x1F {
            long_escape_bytes(c)
        } else if is_special(c) {
            seq![spec_low_byte(c)]
        } else {
            encode_scalar(c as u32)
        },
    }
}

/// For each byte of a character's shortest representation, the other way
/// to write the character there.
pub open spec fn char_alternatives(c: char) -> Seq<AlternativeRepresentation> {
    match short_escape_letter(c) {
        Some(letter) => seq![
            AlternativeRepresentation::Absent,
            AlternativeRepresentation::USingle(spec_encode(utf16_first(c))),
        ],
        None => if (c as u32) <= 0x1F {
            Seq::new(6, |i: int| AlternativeRepresentation::Absent)
        } else if is_special(c) {
            seq![
                AlternativeRepresentation::SlashByteOrUSingle(
                    spec_low_byte(c),
                    spec_encode(utf16_first(c)),
                ),
            ]
        } else {
            regular_alternatives(
                regular_repr(c, encode_scalar(c as u32).len()),
                encode_scalar(c as u32).len(),
            )
        },
    }
}

/// The number of bytes of the longest representation of a character: six
/// for one `\u` escape, twelve for a pair.
pub open spec fn char_limit(c: char) -> nat {
    if short_escape_letter(c).is_none() && (c as u32) > 0x1F && !is_special(c) && utf16_len(c)
        == 2 {
        12
    } else {
        6
    }
}

/// The bytes of the shortest representation of a string, without quotes.
pub open spec fn body_bytes(chars: Seq<char>) -> Seq<u8>
    decreases chars.len(),
{
    if chars.len() == 0 {
        Seq::empty()
    } else {
        body_bytes(chars.drop_last()) + char_bytes(chars.last())
    }
}

/// The alternatives of a string, byte by byte, without quotes.
pub open spec fn body_alternatives(chars: Seq<char>) -> Seq<AlternativeRepresentation>
    decreases chars.len(),
{
    if chars.len() == 0 {
        Seq::empty()
    } else {
        body_alternatives(chars.drop_last()) + char_alternatives(chars.last())
    }
}

/// The number of bytes of the longest representation of a string, without
/// quotes.
pub open spec fn body_limit(chars: Seq<char>) -> nat
    decreases chars.len(),
{
    if chars.len() == 0 {
        0
    } else {
        body_limit(chars.drop_last()) + char_limit(chars.last())
    }
}

/// The spaces behind a pattern's closing quote.
pub open spec fn padding() -> Seq<u8> {
    Seq::new(BLOCK_SIZE as nat, |i: int| JSON_SPACE_BYTE)
}

/// `rsonpath_syntax::str::JsonString`, a string as it stands in a JSONPath
/// query.
#[verifier::external_type_specification]
#[verifier::external_body]
pub struct ExJsonString(JsonString);

/// The characters of a `JsonString` between its quotes.
pub uninterp spec fn json_string_unquoted(string: JsonString) -> Seq<char>;

/// Calls `JsonString::unquoted`, which returns the string without the two
/// quotes that it is kept in. The characters of the result are given the
/// name [`json_string_unquoted`]; nothing else is claimed of them.
#[verifier::external_body]
fn unquoted_of(string: &JsonString) -> (r: &str)
    ensures
        r@ == json_string_unquoted(*string),
{
    string.unquoted()
}

/// Calls `JsonString::quoted` and takes the length of the result in bytes.
/// Nothing is claimed of it.
#[verifier::external_body]
fn quoted_len_of(string: &JsonString) -> usize {
    string.quoted().len()
}

/// A string to be matched in a JSON document.
#[derive(Debug)]
pub struct StringPattern {
    bytes: Vec<u8>,
    alternatives: Vec<AlternativeRepresentation>,
    len: usize,
    len_limit: usize,
}

impl PartialEq for StringPattern {
    fn eq(&self, other: &Self) -> (r: bool) {
        crate::query::bytes_equal(self.bytes.as_slice(), other.bytes.as_slice())
    }
}

impl PartialEqSpecImpl for StringPattern {
    open spec fn obeys_eq_spec() -> bool {
        true
    }

    open spec fn eq_spec(&self, other: &Self) -> bool {
        self.spec_quoted() == other.spec_quoted()
    }
}

impl Eq for StringPattern {

}

impl Clone for StringPattern {
    fn clone(&self) -> (r: Self)
        ensures
            r.spec_quoted() == self.spec_quoted(),
            r.spec_len() == self.spec_len(),
            r.spec_len_limit() == self.spec_len_limit(),
            r.spec_alternatives() == self.spec_alternatives(),
    {
        proof {
            use_type_invariant(self);
        }
        let bytes = self.bytes.clone();
        let alternatives = self.alternatives.clone();
        assert(bytes@ =~= self.bytes@);
        assert(alternatives@ =~= self.alternatives@);
        StringPattern { bytes, alternatives, len: self.len, len_limit: self.len_limit }
    }
}

impl StringPattern {
    #[verifier::type_invariant]
    spec fn inv(self) -> bool {
        self.len <= self.bytes@.len() && 2 <= self.bytes@.len()
    }

    /// All bytes of the pattern: the quoted shortest representation and the
    /// padding behind it.
    pub closed spec fn spec_quoted(&self) -> Seq<u8> {
        self.bytes@
    }

    /// The length of the quoted shortest representation.
    pub closed spec fn spec_len(&self) -> nat {
        self.len as nat
    }

    /// The alternatives, one for each byte of the quoted shortest
    /// representation.
    pub closed spec fn spec_alternatives(&self) -> Seq<AlternativeRepresentation> {
        self.alternatives@
    }

    /// The length of the longest representation, quotes included.
    pub closed spec fn spec_len_limit(&self) -> usize {
        self.len_limit
    }

    /// Whether the pattern is the one of the string `chars`.
    pub open spec fn represents(&self, chars: Seq<char>) -> bool {
        &&& self.spec_quoted() == seq![0x22u8] + body_bytes(chars) + seq![0x22u8] + padding()
        &&& self.spec_len() == body_bytes(chars).len() + 2
        &&& self.spec_alternatives() == seq![AlternativeRepresentation::Absent]
            + body_alternatives(chars) + seq![AlternativeRepresentation::Absent]
        &&& self.spec_len_limit() == saturating(2, body_limit(chars))
    }

    /// The quoted shortest representation.
    pub fn bytes(&self) -> (r: &[u8])
        ensures
            r@ == self.spec_quoted().take(self.spec_len() as int),
    {
        proof {
            use_type_invariant(self);
        }
        slice_subrange(self.bytes.as_slice(), 0, self.len)
    }

    /// All bytes of the pattern but the first and the last.
    pub fn unquoted(&self) -> (r: &[u8])
        ensures
            r@ == self.spec_quoted().subrange(1, self.spec_quoted().len() - 1),
    {
        proof {
            use_type_invariant(self);
        }
        slice_subrange(self.bytes.as_slice(), 1, self.bytes.len() - 1)
    }

    /// All bytes of the pattern.
    pub fn quoted(&self) -> (r: &[u8])
        ensures
            r@ == self.spec_quoted(),
    {
        self.bytes.as_slice()
    }

    /// The length of the longest representation of the string, quotes
    /// included.
    pub fn len_limit(&self) -> (r: usize)
        ensures
            r == self.spec_len_limit(),
    {
        self.len_limit
    }

    /// The alternative at position `i` of the quoted shortest
    /// representation.
    pub fn alternative(&self, i: usize) -> (r: Option<AlternativeRepresentation>)
        ensures
            r == if i < self.spec_alternatives().len() {
                Some(self.spec_alternatives()[i as int])
            } else {
                None
            },
    {
        if i < self.alternatives.len() {
            Some(self.alternatives[i])
        } else {
            None
        }
    }

    /// Whether two patterns have the same bytes.
    pub fn same_bytes(&self, other: &StringPattern) -> (r: bool)
        ensures
            r == (self.spec_quoted() == other.spec_quoted()),
    {
        crate::query::bytes_equal(self.bytes.as_slice(), other.bytes.as_slice())
    }

    /// The pattern of a string of a JSONPath query.
    pub fn new(string: &JsonString) -> (r: Self)
        ensures
            r.represents(json_string_unquoted(*string)),
    {
        let byte_length: usize = quoted_len_of(string);
        Self::with_capacity(unquoted_of(string), byte_length)
    }

    /// The pattern of the string `unquoted`.
    pub fn from_unquoted(unquoted: &str) -> (r: Self)
        ensures
            r.represents(unquoted@),
    {
        Self::with_capacity(unquoted, 0)
    }

    /// The pattern of the string `unquoted`, built with room for
    /// `byte_length` bytes.
    fn with_capacity(unquoted: &str, byte_length: usize) -> (r: Self)
        ensures
            r.represents(unquoted@),
    {
        let mut builder = StringPatternBuilder::new(byte_length);
        let ghost mut done: Seq<char> = Seq::empty();
        for c in it: unquoted.chars()
            invariant
                it.seq() == unquoted@,
                done == it.seq().take(it.index() as int),
                builder.bytes@ == seq![0x22u8] + body_bytes(done),
                builder.alternatives@ == seq![AlternativeRepresentation::Absent]
                    + body_alternatives(done),
                builder.len_limit == saturating(1, body_limit(done)),
        {
            let ghost now = done.push(c);
            proof {
                assert(now.drop_last() =~= done);
                assert(now.last() == c);
                assert(now =~= it.seq().take(it.index() + 1));
                vstd::utf8::char_is_scalar(c);
            }
            if c == '\u{0008}' {
                builder.short_escape(0x62, c);
            } else if c == '\u{000C}' {
                builder.short_escape(0x66, c);
            } else if c == '\n' {
                builder.short_escape(0x6e, c);
            } else if c == '\r' {
                builder.short_escape(0x72, c);
            } else if c == '\t' {
                builder.short_escape(0x74, c);
            } else if c == '"' {
                builder.short_escape(0x22, c);
            } else if c == '\\' {
                builder.short_escape(0x5c, c);
            } else if (c as u32) <= 0x1F {
                builder.long_escape(c);
            } else if c == '/' || c == '\'' {
                builder.special_escape(c);
            } else {
                builder.regular_escape(c);
            }
            proof {
                assert(builder.bytes@ =~= seq![0x22u8] + body_bytes(now));
                assert(builder.alternatives@ =~= seq![AlternativeRepresentation::Absent]
                    + body_alternatives(now));
                done = now;
            }
        }
        assert(done =~= unquoted@);
        builder.into_pattern()
    }
}

impl StringPatternBuilder {
    /// Closes the pattern: writes the closing quote, fixes the length and
    /// pads the bytes with a block of spaces.
    pub fn into_pattern(self) -> (r: StringPattern)
        ensures
            r.spec_quoted() == self.bytes@ + seq![0x22u8] + padding(),
            r.spec_len() == self.bytes@.len() + 1,
            r.spec_alternatives() == self.alternatives@ + seq![AlternativeRepresentation::Absent],
            r.spec_len_limit() == saturating(self.len_limit, 1),
    {
        let mut this = self;
        this.bytes.push(0x22);
        this.alternatives.push(AlternativeRepresentation::Absent);
        this.len_limit = this.len_limit.saturating_add(1);
        let len: usize = this.bytes.len();
        let mut i: usize = 0;
        while i < BLOCK_SIZE
            invariant
                i <= BLOCK_SIZE,
                len == self.bytes@.len() + 1,
                this.bytes@ == self.bytes@ + seq![0x22u8] + Seq::new(
                    i as nat,
                    |j: int| JSON_SPACE_BYTE,
                ),
                this.alternatives@ == self.alternatives@ + seq![AlternativeRepresentation::Absent],
                this.len_limit == saturating(self.len_limit, 1),
            decreases BLOCK_SIZE - i,
        {
            this.bytes.push(JSON_SPACE_BYTE);
            i += 1;
            assert(this.bytes@ =~= self.bytes@ + seq![0x22u8] + Seq::new(
                i as nat,
                |j: int| JSON_SPACE_BYTE,
            ));
        }
        StringPattern {
            bytes: this.bytes,
            alternatives: this.alternatives,
            len_limit: this.len_limit,
            len,
        }
    }
}

} // verus!
