//! The record of the one hard-coded schema and its fixed-width codec.

use crate::bytes::{
    le_read_u32, le_write_u32, read_range, splice, string_from_utf8, write_range, zero_bytes,
    zeroed,
};
use crate::error::Error;
use crate::text::{decimal, decimal_string, lemma_trim_padding, nul_chars, trim_nuls, trimmed};
use vstd::bytes::{
    lemma_auto_spec_u32_to_from_le_bytes, spec_u32_from_le_bytes, spec_u32_to_le_bytes,
};
use vstd::prelude::*;
use vstd::string::StringExecFns;
use vstd::utf8::{
    decode_utf8, encode_utf8, encode_utf8_decode_utf8, encode_utf8_valid_utf8,
    is_ascii_chars, is_ascii_chars_encode_utf8, valid_utf8,
};

verus! {

/// The longest username, in bytes of UTF-8.
pub const MAX_USERNAME: usize = 31;

/// The longest email, in bytes of UTF-8.
pub const MAX_EMAIL: usize = 255;

pub const ID_SIZE: usize = 4;

pub const USERNAME_SIZE: usize = MAX_USERNAME + 1;

pub const EMAIL_SIZE: usize = MAX_EMAIL + 1;

pub const USERNAME_OFFSET: usize = ID_SIZE;

pub const EMAIL_OFFSET: usize = USERNAME_OFFSET + USERNAME_SIZE;

/// The width of a serialized record.
pub const ROW_SIZE: usize = ID_SIZE + USERNAME_SIZE + EMAIL_SIZE;

/// One record: a key and two text fields.
#[derive(Clone, Debug, Default, PartialEq, Eq)]
pub struct Row {
    pub id: u32,
    pub username: String,
    pub email: String,
}

/// A record as a mathematical value.
pub ghost struct RowView {
    pub id: u32,
    pub username: Seq<char>,
    pub email: Seq<char>,
}

impl View for Row {
    type V = RowView;

    open spec fn view(&self) -> RowView {
        RowView { id: self.id, username: self.username@, email: self.email@ }
    }
}

/// `bytes` followed by as many zero bytes as it takes to fill `width`.
pub open spec fn padded(bytes: Seq<u8>, width: nat) -> Seq<u8> {
    bytes + zero_bytes((width - bytes.len()) as nat)
}

impl RowView {
    /// Both text fields are short enough to be stored.
    pub open spec fn fits(self) -> bool {
        &&& encode_utf8(self.username).len() <= MAX_USERNAME
        &&& encode_utf8(self.email).len() <= MAX_EMAIL
    }

    /// The serialized form: the key in little-endian order, then each text
    /// field as UTF-8, zero-padded to its width.
    pub open spec fn encoding(self) -> Seq<u8> {
        spec_u32_to_le_bytes(self.id) + padded(encode_utf8(self.username), USERNAME_SIZE as nat)
            + padded(encode_utf8(self.email), EMAIL_SIZE as nat)
    }

    /// This record as it comes back from storage: each text field followed
    /// by the NUL characters that padded it.
    pub open spec fn stored(self) -> RowView {
        RowView {
            id: self.id,
            username: self.username + nul_chars(
                (USERNAME_SIZE - encode_utf8(self.username).len()) as nat,
            ),
            email: self.email + nul_chars((EMAIL_SIZE - encode_utf8(self.email).len()) as nat),
        }
    }
}

/// The bytes of the username field in a serialized record.
pub open spec fn username_bytes(bytes: Seq<u8>) -> Seq<u8> {
    bytes.subrange(USERNAME_OFFSET as int, USERNAME_OFFSET + USERNAME_SIZE)
}

/// The bytes of the email field in a serialized record.
pub open spec fn email_bytes(bytes: Seq<u8>) -> Seq<u8> {
    bytes.subrange(EMAIL_OFFSET as int, EMAIL_OFFSET + EMAIL_SIZE)
}

/// `bytes` begins with a serialized record whose text fields are UTF-8.
pub open spec fn decodable(bytes: Seq<u8>) -> bool {
    &&& bytes.len() >= ROW_SIZE
    &&& valid_utf8(username_bytes(bytes))
    &&& valid_utf8(email_bytes(bytes))
}

/// The record that the first `ROW_SIZE` bytes of `bytes` hold. Padding is
/// kept: each text field is decoded over its full width.
pub open spec fn decoding(bytes: Seq<u8>) -> RowView {
    RowView {
        id: spec_u32_from_le_bytes(bytes.subrange(0, ID_SIZE as int)),
        username: decode_utf8(username_bytes(bytes)),
        email: decode_utf8(email_bytes(bytes)),
    }
}

impl Row {
    /// Tells whether both text fields are short enough to be stored.
    pub fn fits(&self) -> (b: bool)
        ensures
            b == self@.fits(),
    {
        self.username.as_str().as_bytes().len() <= MAX_USERNAME
            && self.email.as_str().as_bytes().len() <= MAX_EMAIL
    }

    /// Serializes the record into `ROW_SIZE` bytes.
    pub fn serialize(&self) -> (buf: Vec<u8>)
        requires
            self@.fits(),
        ensures
            buf@ == self@.encoding(),
            buf@.len() == ROW_SIZE,
    {
        let mut buf = zeroed(ROW_SIZE);
        le_write_u32(&mut buf, 0, self.id);
        Self::write_string(&mut buf, USERNAME_OFFSET, self.username.as_str(), USERNAME_SIZE);
        Self::write_string(&mut buf, EMAIL_OFFSET, self.email.as_str(), EMAIL_SIZE);
        proof {
            lemma_auto_spec_u32_to_from_le_bytes();
            assert(buf@ =~= self@.encoding());
        }
        buf
    }

    /// Reads a record back from the first `ROW_SIZE` bytes of `buf`. Fails
    /// when `buf` is too short or a text field is not UTF-8.
    pub fn deserialize(buf: &[u8]) -> (res: Result<Row, Error>)
        ensures
            res is Ok <==> decodable(buf@),
            res matches Ok(row) ==> row@ == decoding(buf@),
            res matches Err(e) ==> e == Error::Decode,
    {
        if buf.len() < ROW_SIZE {
            return Err(Error::Decode);
        }
        let bytes = read_range(buf, 0, ROW_SIZE);
        let id = le_read_u32(bytes.as_slice(), 0);
        assert(bytes@.subrange(0, 4) =~= buf@.subrange(0, ID_SIZE as int));
        assert(username_bytes(bytes@) =~= username_bytes(buf@));
        assert(email_bytes(bytes@) =~= email_bytes(buf@));
        let username = match Self::read_string(&bytes, USERNAME_OFFSET, USERNAME_SIZE) {
            Some(s) => s,
            None => {
                return Err(Error::Decode);
            },
        };
        let email = match Self::read_string(&bytes, EMAIL_OFFSET, EMAIL_SIZE) {
            Some(s) => s,
            None => {
                return Err(Error::Decode);
            },
        };
        Ok(Row { id, username, email })
    }

    /// Writes `s` at `pos`, zero-padded to `length` bytes.
    fn write_string(buf: &mut Vec<u8>, pos: usize, s: &str, length: usize)
        requires
            pos + length <= old(buf)@.len(),
            encode_utf8(s@).len() <= length,
        ensures
            final(buf)@ == splice(old(buf)@, pos as int, padded(encode_utf8(s@), length as nat)),
    {
        let bytes = s.as_bytes();
        let len = bytes.len();
        let total = buf.len();
        write_range(buf, pos, bytes);
        let padding = zeroed(length - len);
        write_range(buf, pos + len, padding.as_slice());
        assert(buf@ =~= splice(old(buf)@, pos as int, padded(encode_utf8(s@), length as nat)));
    }

    /// Reads the text stored in the `length` bytes at `pos`, or in as many
    /// as `buf` has left there.
    fn read_string(buf: &Vec<u8>, pos: usize, length: usize) -> (res: Option<String>)
        requires
            pos <= buf@.len(),
        ensures
            res is Some <==> valid_utf8(
                buf@.subrange(pos as int, pos + vstd::math::min(length as int, buf@.len() - pos)),
            ),
            res matches Some(s) ==> s@ == decode_utf8(
                buf@.subrange(pos as int, pos + vstd::math::min(length as int, buf@.len() - pos)),
            ),
    {
        let rest = buf.len() - pos;
        let len = if length <= rest {
            length
        } else {
            rest
        };
        let bytes = read_range(buf.as_slice(), pos, len);
        string_from_utf8(bytes)
    }
}

/// The encoding of a concatenation is the concatenation of the encodings.
pub proof fn lemma_encode_utf8_concat(a: Seq<char>, b: Seq<char>)
    ensures
        encode_utf8(a + b) == encode_utf8(a) + encode_utf8(b),
    decreases a.len(),
{
    if a.len() == 0 {
        assert(a + b =~= b);
        assert(encode_utf8(a) + encode_utf8(b) =~= encode_utf8(b));
    } else {
        lemma_encode_utf8_concat(a.drop_first(), b);
        assert((a + b).drop_first() =~= a.drop_first() + b);
        assert((a + b)[0] == a[0]);
        assert(encode_utf8(a + b) =~= encode_utf8(a) + encode_utf8(b));
    }
}

/// NUL characters encode as zero bytes, one each.
pub proof fn lemma_encode_nul_chars(n: nat)
    ensures
        encode_utf8(nul_chars(n)) == zero_bytes(n),
{
    let chars = nul_chars(n);
    assert(is_ascii_chars(chars));
    is_ascii_chars_encode_utf8(chars);
    assert(encode_utf8(chars) =~= zero_bytes(n));
}

/// A padded text field decodes to the text followed by NUL characters.
pub proof fn lemma_padded_field(text: Seq<char>, width: nat)
    requires
        encode_utf8(text).len() <= width,
    ensures
        padded(encode_utf8(text), width).len() == width,
        valid_utf8(padded(encode_utf8(text), width)),
        decode_utf8(padded(encode_utf8(text), width)) == text + nul_chars(
            (width - encode_utf8(text).len()) as nat,
        ),
{
    let k = (width - encode_utf8(text).len()) as nat;
    lemma_encode_nul_chars(k);
    lemma_encode_utf8_concat(text, nul_chars(k));
    encode_utf8_valid_utf8(text + nul_chars(k));
    encode_utf8_decode_utf8(text + nul_chars(k));
}

/// Round trip of the codec: a record that fits is decodable from its
/// encoding, and what comes back is the record itself with each text field
/// followed by its padding.
pub proof fn lemma_codec_round_trip(r: RowView)
    requires
        r.fits(),
    ensures
        r.encoding().len() == ROW_SIZE,
        decodable(r.encoding()),
        decoding(r.encoding()) == r.stored(),
{
    lemma_auto_spec_u32_to_from_le_bytes();
    lemma_padded_field(r.username, USERNAME_SIZE as nat);
    lemma_padded_field(r.email, EMAIL_SIZE as nat);
    let e = r.encoding();
    assert(e.subrange(0, ID_SIZE as int) =~= spec_u32_to_le_bytes(r.id));
    assert(username_bytes(e) =~= padded(encode_utf8(r.username), USERNAME_SIZE as nat));
    assert(email_bytes(e) =~= padded(encode_utf8(r.email), EMAIL_SIZE as nat));
}

/// The width of a serialized record.
pub proof fn lemma_row_size()
    ensures
        ROW_SIZE == 292,
{
}

/// A serialized record has the width of a record and starts with its key.
pub proof fn lemma_encoding_key(r: RowView)
    requires
        r.fits(),
    ensures
        r.encoding().len() == ROW_SIZE,
        spec_u32_from_le_bytes(r.encoding().subrange(0, 4)) == r.id,
{
    lemma_codec_round_trip(r);
}

/// The line that shows the record `r`: its id, its username and its email,
/// the two without the NUL characters around them.
pub open spec fn line_of(r: RowView) -> Seq<char> {
    decimal(r.id as nat) + ": "@ + trim_nuls(r.username) + " "@ + trim_nuls(r.email)
}

impl Row {
    /// The line that shows the record.
    pub fn to_line(&self) -> (s: String)
        ensures
            s@ == line_of(self@),
    {
        let mut s = decimal_string(self.id as usize);
        s.append(": ");
        s.append(trimmed(self.username.as_str()).as_str());
        s.append(" ");
        s.append(trimmed(self.email.as_str()).as_str());
        s
    }
}

/// Round trip of the codec as a reader sees it: a record that fits reads
/// the same after it has been serialized and read back.
pub proof fn lemma_round_trip_line(r: RowView)
    requires
        r.fits(),
    ensures
        decodable(r.encoding()),
        line_of(decoding(r.encoding())) == line_of(r),
{
    lemma_codec_round_trip(r);
    lemma_trim_padding(r.username, (USERNAME_SIZE - encode_utf8(r.username).len()) as nat);
    lemma_trim_padding(r.email, (EMAIL_SIZE - encode_utf8(r.email).len()) as nat);
}

} // verus!
