//! The row codec: a fixed-schema record and its fixed-width binary form.
//!
//! A row always encodes to exactly [`ROW_SIZE`] bytes: the id as four
//! little-endian bytes, then the username's UTF-8 bytes zero-padded to
//! [`USERNAME_SIZE`], then the email's UTF-8 bytes zero-padded to
//! [`EMAIL_SIZE`]. Decoding keeps the padding: short fields come back with
//! trailing `'\0'` characters.

use vstd::bytes::{spec_u32_from_le_bytes, spec_u32_to_le_bytes, u32_from_le_bytes, u32_to_le_bytes};
use vstd::prelude::*;
use vstd::slice::{slice_subrange, slice_to_vec};
use vstd::utf8::{decode_utf8, encode_utf8, valid_utf8};

verus! {

pub const ID_SIZE: usize = 4;

pub const USERNAME_SIZE: usize = 32;

pub const EMAIL_SIZE: usize = 255;

pub const ID_OFFSET: usize = 0;

pub const USERNAME_OFFSET: usize = ID_OFFSET + ID_SIZE;

pub const EMAIL_OFFSET: usize = USERNAME_OFFSET + USERNAME_SIZE;

pub const ROW_SIZE: usize = ID_SIZE + USERNAME_SIZE + EMAIL_SIZE;

/// One record: a numeric id and two text fields.
pub struct Row {
    pub id: u32,
    pub username: String,
    pub email: String,
}

/// The mathematical value of a [`Row`]: the id and the two fields as
/// character sequences.
pub struct RowView {
    pub id: u32,
    pub username: Seq<char>,
    pub email: Seq<char>,
}

impl View for Row {
    type V = RowView;

    open spec fn view(&self) -> RowView {
        RowView { id: self.id, username: self.username@, email: self.email@ }
    }
}

/// A row whose text fields fit their fixed-width slots, measured in encoded
/// UTF-8 bytes. Only such rows can be serialized.
pub open spec fn fields_fit(v: RowView) -> bool {
    &&& encode_utf8(v.username).len() <= USERNAME_SIZE
    &&& encode_utf8(v.email).len() <= EMAIL_SIZE
}

/// `n` zero bytes.
pub open spec fn zero_bytes(n: int) -> Seq<u8> {
    Seq::new(n as nat, |i: int| 0u8)
}

/// `n` NUL characters, the decoded form of zero padding.
pub open spec fn pad_chars(n: int) -> Seq<char> {
    Seq::new(n as nat, |i: int| '\0')
}

/// The encoded form of a row: little-endian id, then each text field's UTF-8
/// bytes padded with zeros to its fixed width.
pub open spec fn spec_serialize(v: RowView) -> Seq<u8>
    recommends
        fields_fit(v),
{
    spec_u32_to_le_bytes(v.id) + encode_utf8(v.username) + zero_bytes(
        USERNAME_SIZE - encode_utf8(v.username).len(),
    ) + encode_utf8(v.email) + zero_bytes(EMAIL_SIZE - encode_utf8(v.email).len())
}

/// What decoding a byte buffer yields: `None` when fewer than [`ROW_SIZE`]
/// bytes are given or when either text slot is not valid UTF-8; otherwise the
/// row read from the first [`ROW_SIZE`] bytes, padding included.
pub open spec fn spec_deserialize(b: Seq<u8>) -> Option<RowView> {
    if b.len() < ROW_SIZE {
        None
    } else {
        let ubytes = b.subrange(USERNAME_OFFSET as int, EMAIL_OFFSET as int);
        let ebytes = b.subrange(EMAIL_OFFSET as int, ROW_SIZE as int);
        if valid_utf8(ubytes) && valid_utf8(ebytes) {
            Some(
                RowView {
                    id: spec_u32_from_le_bytes(b.subrange(ID_OFFSET as int, ID_SIZE as int)),
                    username: decode_utf8(ubytes),
                    email: decode_utf8(ebytes),
                },
            )
        } else {
            None
        }
    }
}

/// Encoding a character sequence piece by piece gives the same bytes as
/// encoding it whole.
proof fn lemma_encode_utf8_concat(a: Seq<char>, b: Seq<char>)
    ensures
        encode_utf8(a + b) == encode_utf8(a) + encode_utf8(b),
    decreases a.len(),
{
    if a.len() == 0 {
        assert(a + b =~= b);
        assert(encode_utf8(a) + encode_utf8(b) =~= encode_utf8(b));
    } else {
        lemma_encode_utf8_concat(a.drop_first(), b);
        assert((a + b).drop_first() =~= a.drop_first() + b);
        assert(encode_utf8(a + b) =~= encode_utf8(a) + encode_utf8(b));
    }
}

/// NUL characters encode to zero bytes, one each.
proof fn lemma_encode_pad(n: int)
    requires
        n >= 0,
    ensures
        encode_utf8(pad_chars(n)) == zero_bytes(n),
    decreases n,
{
    assert(('\0' as u32) == 0);
    assert((0u32 & 0x7F) as u8 == 0u8) by (bit_vector);
    if n == 0 {
        assert(pad_chars(0) =~= Seq::<char>::empty());
        assert(encode_utf8(pad_chars(0)) =~= zero_bytes(0));
    } else {
        lemma_encode_pad(n - 1);
        assert(pad_chars(n).drop_first() =~= pad_chars(n - 1));
        assert(vstd::utf8::encode_scalar(0) =~= seq![0u8]);
        assert(encode_utf8(pad_chars(n)) =~= zero_bytes(n));
    }
}

/// Round trip of the codec: decoding an encoded row succeeds and gives back
/// the same id and each text field followed by its deterministic zero
/// padding, one NUL character per unused byte of the slot.
pub proof fn lemma_codec_round_trip(v: RowView)
    requires
        fields_fit(v),
    ensures
        spec_deserialize(spec_serialize(v)) == Some(
            RowView {
                id: v.id,
                username: v.username + pad_chars(USERNAME_SIZE - encode_utf8(v.username).len()),
                email: v.email + pad_chars(EMAIL_SIZE - encode_utf8(v.email).len()),
            },
        ),
{
    let b = spec_serialize(v);
    let lu = encode_utf8(v.username).len() as int;
    let le = encode_utf8(v.email).len() as int;
    vstd::bytes::lemma_auto_spec_u32_to_from_le_bytes();
    let upad = v.username + pad_chars(USERNAME_SIZE - lu);
    let epad = v.email + pad_chars(EMAIL_SIZE - le);
    lemma_encode_utf8_concat(v.username, pad_chars(USERNAME_SIZE - lu));
    lemma_encode_pad(USERNAME_SIZE - lu);
    lemma_encode_utf8_concat(v.email, pad_chars(EMAIL_SIZE - le));
    lemma_encode_pad(EMAIL_SIZE - le);
    assert(b.subrange(ID_OFFSET as int, ID_SIZE as int) =~= spec_u32_to_le_bytes(v.id));
    assert(b.subrange(USERNAME_OFFSET as int, EMAIL_OFFSET as int) =~= encode_utf8(upad));
    assert(b.subrange(EMAIL_OFFSET as int, ROW_SIZE as int) =~= encode_utf8(epad));
    vstd::utf8::encode_utf8_valid_utf8(upad);
    vstd::utf8::encode_utf8_valid_utf8(epad);
    vstd::utf8::encode_utf8_decode_utf8(upad);
    vstd::utf8::encode_utf8_decode_utf8(epad);
}

/// Relies on `String::from_utf8`: it returns `Ok` exactly when the bytes are
/// valid UTF-8, and the returned string consists of the characters those
/// bytes encode.
#[verifier::external_body]
fn string_from_utf8(bytes: Vec<u8>) -> (r: Option<String>)
    ensures
        match r {
            Some(s) => valid_utf8(bytes@) && s@ == decode_utf8(bytes@),
            None => !valid_utf8(bytes@),
        },
{
    String::from_utf8(bytes).ok()
}

impl Row {
    /// The empty row: id zero and empty text fields.
    pub fn new() -> (r: Self)
        ensures
            r@ == (RowView { id: 0, username: Seq::<char>::empty(), email: Seq::<char>::empty() }),
    {
        Self { id: 0, username: String::new(), email: String::new() }
    }

    /// Encode this row into its fixed-width binary form.
    pub fn serialize_row(&self) -> (r: Vec<u8>)
        requires
            fields_fit(self@),
        ensures
            r@ == spec_serialize(self@),
            r@.len() == ROW_SIZE,
    {
        let mut buffer = u32_to_le_bytes(self.id);
        let username_bytes: &[u8] = self.username.as_str().as_bytes();
        buffer.extend_from_slice(username_bytes);
        while buffer.len() < ID_SIZE + USERNAME_SIZE
            invariant
                encode_utf8(self.username@).len() <= USERNAME_SIZE,
                ID_SIZE + encode_utf8(self.username@).len() <= buffer@.len() <= ID_SIZE
                    + USERNAME_SIZE,
                buffer@ =~= spec_u32_to_le_bytes(self.id) + encode_utf8(self.username@)
                    + zero_bytes(buffer@.len() - ID_SIZE - encode_utf8(self.username@).len()),
            decreases ID_SIZE + USERNAME_SIZE - buffer@.len(),
        {
            buffer.push(0);
        }
        let email_bytes: &[u8] = self.email.as_str().as_bytes();
        buffer.extend_from_slice(email_bytes);
        let ghost mid = spec_u32_to_le_bytes(self.id) + encode_utf8(self.username@) + zero_bytes(
            USERNAME_SIZE - encode_utf8(self.username@).len(),
        );
        while buffer.len() < ROW_SIZE
            invariant
                encode_utf8(self.email@).len() <= EMAIL_SIZE,
                mid.len() == ID_SIZE + USERNAME_SIZE,
                mid.len() + encode_utf8(self.email@).len() <= buffer@.len() <= ROW_SIZE,
                buffer@ =~= mid + encode_utf8(self.email@) + zero_bytes(
                    buffer@.len() - mid.len() - encode_utf8(self.email@).len(),
                ),
            decreases ROW_SIZE - buffer@.len(),
        {
            buffer.push(0);
        }
        assert(buffer@ =~= spec_serialize(self@));
        buffer
    }

    /// Decode a row from the first [`ROW_SIZE`] bytes of a buffer.
    pub fn deserialize_row(buffer: &[u8]) -> (r: Option<Self>)
        ensures
            match r {
                Some(row) => spec_deserialize(buffer@) == Some(row@),
                None => spec_deserialize(buffer@) is None,
            },
    {
        if buffer.len() < ROW_SIZE {
            return None;
        }
        let id = u32_from_le_bytes(slice_subrange(buffer, ID_OFFSET, ID_SIZE));
        let username_bytes = slice_to_vec(slice_subrange(buffer, USERNAME_OFFSET, EMAIL_OFFSET));
        let username = match string_from_utf8(username_bytes) {
            Some(s) => s,
            None => {
                return None;
            },
        };
        let email_bytes = slice_to_vec(slice_subrange(buffer, EMAIL_OFFSET, ROW_SIZE));
        let email = match string_from_utf8(email_bytes) {
            Some(s) => s,
            None => {
                return None;
            },
        };
        Some(Row { id, username, email })
    }
}

} // verus!
