//! Fixed-width text columns and the row record, with their byte encoding.
use crate::bytes::{be_bytes, be_u32, lemma_be_roundtrip, write_u32};
use crate::constants::{COLUMN_EMAIL_SIZE, COLUMN_USERNAME_SIZE, EMAIL_OFFSET, EMAIL_SIZE, ROW_SIZE, USERNAME_OFFSET, USERNAME_SIZE};
use crate::errors::PrepareError;
use vstd::prelude::*;
use vstd::string::StringSliceAdditionalSpecFns;

verus! {

/// A text column of exactly `N` bytes: the text, padded with zero bytes.
#[derive(Debug)]
pub struct VarChar<const N: usize> {
    pub data: Vec<u8>,
}

impl<const N: usize> View for VarChar<N> {
    type V = Seq<u8>;

    open spec fn view(&self) -> Seq<u8> {
        self.data@
    }
}

/// `s` without the zero bytes at its end.
pub open spec fn trim_zeros(s: Seq<u8>) -> Seq<u8>
    decreases s.len(),
{
    if s.len() > 0 && s.last() == 0 {
        trim_zeros(s.drop_last())
    } else {
        s
    }
}

/// The zero-padded `N`-byte image of `text`.
pub open spec fn padded(text: Seq<u8>, n: nat) -> Seq<u8> {
    Seq::new(n, |i: int| if i < text.len() { text[i] } else { 0u8 })
}

impl<const N: usize> VarChar<N> {
    /// A column holds exactly `N` bytes.
    pub open spec fn wf(&self) -> bool {
        self@.len() == N
    }

    /// The `N` stored bytes.
    pub fn as_bytes(&self) -> (r: &[u8])
        ensures
            r@ == self@,
    {
        self.data.as_slice()
    }

    /// Builds a column from `value`; a value longer than `N` bytes is refused.
    pub fn try_from(value: &str) -> (r: Result<VarChar<N>, PrepareError>)
        ensures
            value.spec_bytes().len() > N ==> r == Err::<VarChar<N>, PrepareError>(PrepareError::StringTooLong),
            value.spec_bytes().len() <= N ==> (r matches Ok(v) && v.wf() && v@ == padded(value.spec_bytes(), N as nat)),
    {
        let bytes = value.as_bytes();
        Self::from_text_bytes(bytes)
    }

    /// Builds a column from raw text bytes; more than `N` bytes is refused.
    pub fn from_text_bytes(bytes: &[u8]) -> (r: Result<VarChar<N>, PrepareError>)
        ensures
            bytes@.len() > N ==> r == Err::<VarChar<N>, PrepareError>(PrepareError::StringTooLong),
            bytes@.len() <= N ==> (r matches Ok(v) && v.wf() && v@ == padded(bytes@, N as nat)),
    {
        if bytes.len() > N {
            return Err(PrepareError::StringTooLong);
        }
        let mut data: Vec<u8> = Vec::new();
        let mut i: usize = 0;
        while i < N
            invariant
                i <= N,
                bytes@.len() <= N,
                data@ == padded(bytes@, N as nat).take(i as int),
            decreases N - i,
        {
            if i < bytes.len() {
                data.push(bytes[i]);
            } else {
                data.push(0u8);
            }
            i = i + 1;
            assert(data@ =~= padded(bytes@, N as nat).take(i as int));
        }
        assert(data@ =~= padded(bytes@, N as nat));
        Ok(VarChar { data })
    }

    /// The text the column holds: its bytes without the zero padding at the end.
    pub fn text_bytes(&self) -> (r: Vec<u8>)
        ensures
            r@ == trim_zeros(self@),
    {
        let mut end: usize = self.data.len();
        assert(self@.take(end as int) =~= self@);
        while end > 0
            invariant
                end <= self@.len(),
                trim_zeros(self@) == trim_zeros(self@.take(end as int)),
            ensures
                end <= self@.len(),
                trim_zeros(self@) == trim_zeros(self@.take(end as int)),
                end == 0 || self@[end - 1] != 0,
            decreases end,
        {
            if self.data[end - 1] != 0 {
                break;
            }
            proof {
                assert(self@.take(end as int).drop_last() =~= self@.take(end - 1));
            }
            end = end - 1;
        }
        let mut out: Vec<u8> = Vec::new();
        let mut i: usize = 0;
        while i < end
            invariant
                i <= end <= self@.len(),
                out@ == self@.take(i as int),
            decreases end - i,
        {
            out.push(self.data[i]);
            i = i + 1;
            assert(out@ =~= self@.take(i as int));
        }
        proof {
            assert(self@.take(end as int).len() == 0 || self@.take(end as int).last() != 0);
        }
        out
    }
}

/// One record of the table: an id, a username and an email.
#[derive(Debug)]
pub struct Row {
    pub id: u32,
    pub username: VarChar<COLUMN_USERNAME_SIZE>,
    pub email: VarChar<COLUMN_EMAIL_SIZE>,
}

/// The encoded form of a row: the big-endian id, then the username bytes, then the email bytes.
pub open spec fn row_bytes(id: u32, username: Seq<u8>, email: Seq<u8>) -> Seq<u8> {
    be_bytes(id) + username + email
}

impl Row {
    /// Both columns have their full width.
    pub open spec fn wf(&self) -> bool {
        self.username.wf() && self.email.wf()
    }

    /// The encoded bytes of this row.
    pub open spec fn spec_bytes(&self) -> Seq<u8> {
        row_bytes(self.id, self.username@, self.email@)
    }

    pub fn new(
        id: u32,
        username: VarChar<COLUMN_USERNAME_SIZE>,
        email: VarChar<COLUMN_EMAIL_SIZE>,
    ) -> (r: Self)
        ensures
            r.id == id,
            r.username == username,
            r.email == email,
    {
        Self { id, username, email }
    }

    /// The id, as stored.
    pub fn id(&self) -> (r: usize)
        ensures
            r == self.id,
    {
        self.id as usize
    }

    /// The id column.
    pub fn id_value(&self) -> (r: u32)
        ensures
            r == self.id,
    {
        self.id
    }

    /// The username column.
    pub fn username(&self) -> (r: &VarChar<COLUMN_USERNAME_SIZE>)
        ensures
            r == &self.username,
    {
        &self.username
    }

    /// The email column.
    pub fn email(&self) -> (r: &VarChar<COLUMN_EMAIL_SIZE>)
        ensures
            r == &self.email,
    {
        &self.email
    }

    /// The `ROW_SIZE` bytes that encode this row.
    pub fn serialize_row(&self) -> (r: Vec<u8>)
        requires
            self.wf(),
        ensures
            r@ == self.spec_bytes(),
            r@.len() == ROW_SIZE,
    {
        let mut out: Vec<u8> = Vec::new();
        out.push(0u8);
        out.push(0u8);
        out.push(0u8);
        out.push(0u8);
        write_u32(&mut out, 0, self.id);
        assert(out@ =~= be_bytes(self.id));
        let mut i: usize = 0;
        while i < COLUMN_USERNAME_SIZE
            invariant
                i <= COLUMN_USERNAME_SIZE,
                self.wf(),
                out@ == be_bytes(self.id) + self.username@.take(i as int),
            decreases COLUMN_USERNAME_SIZE - i,
        {
            out.push(self.username.data[i]);
            i = i + 1;
            assert(out@ =~= be_bytes(self.id) + self.username@.take(i as int));
        }
        assert(self.username@.take(COLUMN_USERNAME_SIZE as int) =~= self.username@);
        let mut j: usize = 0;
        while j < COLUMN_EMAIL_SIZE
            invariant
                j <= COLUMN_EMAIL_SIZE,
                self.wf(),
                out@ == be_bytes(self.id) + self.username@ + self.email@.take(j as int),
            decreases COLUMN_EMAIL_SIZE - j,
        {
            out.push(self.email.data[j]);
            j = j + 1;
            assert(out@ =~= be_bytes(self.id) + self.username@ + self.email@.take(j as int));
        }
        assert(self.email@.take(COLUMN_EMAIL_SIZE as int) =~= self.email@);
        out
    }

    /// Decodes a row from the first `ROW_SIZE` bytes of `bytes`; fewer bytes give `None`.
    pub fn deserialize_row(bytes: &[u8]) -> (r: Option<Row>)
        ensures
            bytes@.len() < ROW_SIZE ==> r is None,
            bytes@.len() >= ROW_SIZE ==> (r matches Some(row) && row.wf()
                && row.spec_bytes() == bytes@.take(ROW_SIZE as int)
                && row.id == be_u32(bytes@, 0)
                && row.username@ == bytes@.subrange(USERNAME_OFFSET as int, EMAIL_OFFSET as int)
                && row.email@ == bytes@.subrange(EMAIL_OFFSET as int, ROW_SIZE as int)),
    {
        if bytes.len() < ROW_SIZE {
            return None;
        }
        let id = (bytes[0] as u32) * 16777216 + (bytes[1] as u32) * 65536 + (bytes[2] as u32) * 256
            + (bytes[3] as u32);
        let mut username_buf: Vec<u8> = Vec::new();
        let mut i: usize = USERNAME_OFFSET;
        while i < EMAIL_OFFSET
            invariant
                USERNAME_OFFSET <= i <= EMAIL_OFFSET,
                bytes@.len() >= ROW_SIZE,
                username_buf@ == bytes@.subrange(USERNAME_OFFSET as int, i as int),
            decreases EMAIL_OFFSET - i,
        {
            username_buf.push(bytes[i]);
            i = i + 1;
            assert(username_buf@ =~= bytes@.subrange(USERNAME_OFFSET as int, i as int));
        }
        let mut email_buf: Vec<u8> = Vec::new();
        let mut j: usize = EMAIL_OFFSET;
        while j < ROW_SIZE
            invariant
                EMAIL_OFFSET <= j <= ROW_SIZE,
                bytes@.len() >= ROW_SIZE,
                email_buf@ == bytes@.subrange(EMAIL_OFFSET as int, j as int),
            decreases ROW_SIZE - j,
        {
            email_buf.push(bytes[j]);
            j = j + 1;
            assert(email_buf@ =~= bytes@.subrange(EMAIL_OFFSET as int, j as int));
        }
        let row = Row::new(id, VarChar { data: username_buf }, VarChar { data: email_buf });
        proof {
            lemma_be_bytes_of_be_u32(bytes@, 0);
            assert(row.spec_bytes() =~= bytes@.take(ROW_SIZE as int));
        }
        Some(row)
    }
}

/// Encoding the `u32` read at `off` gives back the four bytes there.
pub proof fn lemma_be_bytes_of_be_u32(s: Seq<u8>, off: int)
    requires
        0 <= off,
        off + 4 <= s.len(),
    ensures
        be_bytes(be_u32(s, off)) == s.subrange(off, off + 4),
{
    let b0 = s[off] as int;
    let b1 = s[off + 1] as int;
    let b2 = s[off + 2] as int;
    let b3 = s[off + 3] as int;
    let t = b0 * 16777216 + b1 * 65536 + b2 * 256 + b3;
    assert(0 <= t < 4294967296) by (nonlinear_arith)
        requires
            0 <= b0 < 256,
            0 <= b1 < 256,
            0 <= b2 < 256,
            0 <= b3 < 256,
            t == b0 * 16777216 + b1 * 65536 + b2 * 256 + b3,
    ;
    let v = be_u32(s, off);
    assert(v as int == t);
    assert(t / 16777216 == b0 && (t / 65536) % 256 == b1 && (t / 256) % 256 == b2 && t % 256 == b3) by (nonlinear_arith)
        requires
            0 <= b0 < 256,
            0 <= b1 < 256,
            0 <= b2 < 256,
            0 <= b3 < 256,
            t == b0 * 16777216 + b1 * 65536 + b2 * 256 + b3,
    ;
    assert(be_bytes(v) =~= s.subrange(off, off + 4));
}

/// Decoding the encoding of a row gives the same row back.
pub proof fn lemma_row_roundtrip(id: u32, username: Seq<u8>, email: Seq<u8>)
    requires
        username.len() == USERNAME_SIZE,
        email.len() == EMAIL_SIZE,
    ensures
        row_bytes(id, username, email).len() == ROW_SIZE,
        be_u32(row_bytes(id, username, email), 0) == id,
        row_bytes(id, username, email).subrange(USERNAME_OFFSET as int, EMAIL_OFFSET as int) == username,
        row_bytes(id, username, email).subrange(EMAIL_OFFSET as int, ROW_SIZE as int) == email,
{
    let b = row_bytes(id, username, email);
    lemma_be_roundtrip(id);
    assert(b[0] == be_bytes(id)[0]);
    assert(b[1] == be_bytes(id)[1]);
    assert(b[2] == be_bytes(id)[2]);
    assert(b[3] == be_bytes(id)[3]);
    assert(b.subrange(USERNAME_OFFSET as int, EMAIL_OFFSET as int) =~= username);
    assert(b.subrange(EMAIL_OFFSET as int, ROW_SIZE as int) =~= email);
}

} // verus!
