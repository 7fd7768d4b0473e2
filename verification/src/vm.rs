//! Statements: reading the input line, parsing it, and running it against the table.
use crate::constants::{COLUMN_EMAIL_SIZE, COLUMN_USERNAME_SIZE, TABLE_MAX_PAGES};
use crate::cursor::{
    advanced, found_at, height_le, lemma_reaches_in_use, reaches, same_tree, Cursor, CursorError,
    CursorView,
};
use crate::errors::{ExecuteError, MetaCommandError, PrepareError};
use crate::node::{is_leaf, leaf_num_cells, leaf_value, next_leaf, LEAF_NODE_MAX_CELLS};
use crate::row::{padded, Row, VarChar};
use crate::table::{leaf_insert_outcome, node_ok, tree_usable, PagerError, PagerView, Table, TableError};
use vstd::prelude::*;
use vstd::string::StringSliceAdditionalSpecFns;

verus! {

/// A prepared statement.
pub enum Statement {
    Insert(Box<Row>),
    Select,
}

// ---------------------------------------------------------------------------
// Whitespace splitting over the UTF-8 bytes of the input.

/// The length of the whitespace character encoded at byte `i` of `b`, or 0 where none is.
/// The whitespace characters are those of the Unicode `White_Space` property: U+0009 to
/// U+000D, U+0020, U+0085, U+00A0, U+1680, U+2000 to U+200A, U+2028, U+2029, U+202F, U+205F
/// and U+3000.
pub open spec fn ws_len(b: Seq<u8>, i: int) -> int {
    if !(0 <= i < b.len()) {
        0
    } else if b[i] == 9 || b[i] == 10 || b[i] == 11 || b[i] == 12 || b[i] == 13 || b[i] == 32 {
        1
    } else if b[i] == 0xC2 && i + 1 < b.len() && (b[i + 1] == 0x85 || b[i + 1] == 0xA0) {
        2
    } else if i + 2 < b.len() && (
        (b[i] == 0xE1 && b[i + 1] == 0x9A && b[i + 2] == 0x80)
        || (b[i] == 0xE2 && b[i + 1] == 0x80 && ((0x80 <= b[i + 2] && b[i + 2] <= 0x8A)
            || b[i + 2] == 0xA8 || b[i + 2] == 0xA9 || b[i + 2] == 0xAF))
        || (b[i] == 0xE2 && b[i + 1] == 0x81 && b[i + 2] == 0x9F)
        || (b[i] == 0xE3 && b[i + 1] == 0x80 && b[i + 2] == 0x80)) {
        3
    } else {
        0
    }
}

/// The number of bytes before the first whitespace character of `b` (all of `b` if none).
pub open spec fn word_len(b: Seq<u8>) -> nat
    decreases b.len(),
{
    if b.len() == 0 || ws_len(b, 0) > 0 {
        0
    } else {
        1 + word_len(b.skip(1))
    }
}

/// The words of `b`: the maximal runs of bytes without whitespace, in order.
pub open spec fn split_ws(b: Seq<u8>) -> Seq<Seq<u8>>
    decreases b.len(),
{
    if b.len() == 0 {
        Seq::empty()
    } else if ws_len(b, 0) > 0 {
        split_ws(b.skip(ws_len(b, 0)))
    } else {
        let n = word_len(b);
        proof {
            lemma_word_len_bound(b);
        }
        if n == 0 {
            Seq::empty()
        } else {
            seq![b.take(n as int)] + split_ws(b.skip(n as int))
        }
    }
}

proof fn lemma_ws_len_skip(b: Seq<u8>, k: int)
    requires
        0 <= k <= b.len(),
    ensures
        ws_len(b.skip(k), 0) == ws_len(b, k),
{
}

proof fn lemma_word_len_pos(b: Seq<u8>)
    requires
        b.len() > 0,
        ws_len(b, 0) == 0,
    ensures
        word_len(b) >= 1,
        word_len(b) <= b.len(),
{
    lemma_word_len_bound(b);
}

/// A word is never longer than the bytes it is taken from.
pub proof fn lemma_word_len_bound(b: Seq<u8>)
    ensures
        word_len(b) <= b.len(),
    decreases b.len(),
{
    if b.len() > 0 && ws_len(b, 0) == 0 {
        lemma_word_len_bound(b.skip(1));
    }
}

/// The length of the whitespace character at byte `i`, or 0.
fn ws_len_at(b: &[u8], i: usize) -> (r: usize)
    requires
        i < b@.len(),
    ensures
        r == ws_len(b@, i as int),
{
    let n = b.len();
    let c = b[i];
    if c == 9 || c == 10 || c == 11 || c == 12 || c == 13 || c == 32 {
        1
    } else if c == 0xC2 && i + 1 < n && (b[i + 1] == 0x85 || b[i + 1] == 0xA0) {
        2
    } else if n - i > 2 && (
        (c == 0xE1 && b[i + 1] == 0x9A && b[i + 2] == 0x80)
        || (c == 0xE2 && b[i + 1] == 0x80 && ((0x80 <= b[i + 2] && b[i + 2] <= 0x8A)
            || b[i + 2] == 0xA8 || b[i + 2] == 0xA9 || b[i + 2] == 0xAF))
        || (c == 0xE2 && b[i + 1] == 0x81 && b[i + 2] == 0x9F)
        || (c == 0xE3 && b[i + 1] == 0x80 && b[i + 2] == 0x80)) {
        3
    } else {
        0
    }
}

/// The byte ranges of the words of `b`, in order.
fn split_words(b: &[u8]) -> (r: Vec<(usize, usize)>)
    ensures
        r@.len() == split_ws(b@).len(),
        forall|k: int| 0 <= k < r@.len() ==> {
            let (s, e) = #[trigger] r@[k];
            s <= e <= b@.len() && b@.subrange(s as int, e as int) == split_ws(b@)[k]
        },
{
    let n = b.len();
    let mut out: Vec<(usize, usize)> = Vec::new();
    let mut i: usize = 0;
    let ghost mut done: Seq<Seq<u8>> = Seq::empty();
    assert(b@.skip(0) =~= b@);
    while i < n
        invariant
            i <= n,
            n == b@.len(),
            done + split_ws(b@.skip(i as int)) == split_ws(b@),
            out@.len() == done.len(),
            forall|k: int| 0 <= k < out@.len() ==> {
                let (s, e) = #[trigger] out@[k];
                s <= e <= b@.len() && b@.subrange(s as int, e as int) == done[k]
            },
        decreases n - i,
    {
        let ghost rest = b@.skip(i as int);
        proof {
            lemma_ws_len_skip(b@, i as int);
        }
        let w = ws_len_at(b, i);
        if w > 0 {
            proof {
                assert(rest.skip(w as int) =~= b@.skip(i + w));
            }
            i = i + w;
        } else {
            let start = i;
            let mut j: usize = i;
            proof {
                lemma_word_len_pos(rest);
            }
            while j < n && ws_len_at(b, j) == 0
                invariant
                    start <= j <= n,
                    n == b@.len(),
                    rest == b@.skip(start as int),
                    word_len(rest) == (j - start) + word_len(b@.skip(j as int)),
                    forall|m: int| start <= m < j ==> ws_len(b@, m) == 0,
                decreases n - j,
            {
                proof {
                    lemma_ws_len_skip(b@, j as int);
                    assert(b@.skip(j as int).skip(1) =~= b@.skip(j + 1));
                }
                j = j + 1;
            }
            proof {
                if j < n {
                    lemma_ws_len_skip(b@, j as int);
                }
                assert(word_len(b@.skip(j as int)) == 0);
                let wl = word_len(rest);
                assert(wl == j - start);
                assert(rest.take(wl as int) =~= b@.subrange(start as int, j as int));
                assert(rest.skip(wl as int) =~= b@.skip(j as int));
                assert(done.push(rest.take(wl as int)) + split_ws(b@.skip(j as int)) =~= done + split_ws(rest));
            }
            out.push((start, j));
            proof {
                done = done.push(b@.subrange(start as int, j as int));
            }
            i = j;
        }
    }
    proof {
        assert(b@.skip(i as int) =~= Seq::<u8>::empty());
        assert(done =~= split_ws(b@));
    }
    out
}

// ---------------------------------------------------------------------------
// Decimal integers, as `i64`'s `from_str` reads them.

pub open spec fn is_digit(c: u8) -> bool {
    48 <= c <= 57
}

/// The value of a run of decimal digits.
pub open spec fn digits_value(d: Seq<u8>) -> int
    decreases d.len(),
{
    if d.len() == 0 {
        0
    } else {
        digits_value(d.drop_last()) * 10 + (d.last() - 48)
    }
}

/// The `i64` that `t` spells: an optional `+` or `-`, then one or more decimal digits, with
/// the value inside the `i64` range; `None` for anything else.
pub open spec fn parse_i64(t: Seq<u8>) -> Option<int> {
    let neg = t.len() > 0 && t[0] == 45;
    let d = digits_part(t);
    let v = if neg { -digits_value(d) } else { digits_value(d) };
    if d.len() == 0 || !(forall|i: int| 0 <= i < d.len() ==> #[trigger] is_digit(d[i])) {
        None
    } else if v < i64::MIN || v > i64::MAX {
        None
    } else {
        Some(v)
    }
}

/// The digits part of a number: what follows an optional sign.
pub open spec fn digits_part(t: Seq<u8>) -> Seq<u8> {
    if t.len() > 0 && (t[0] == 43 || t[0] == 45) { t.skip(1) } else { t }
}

proof fn lemma_digits_value_nonneg(d: Seq<u8>)
    requires
        forall|i: int| 0 <= i < d.len() ==> #[trigger] is_digit(d[i]),
    ensures
        digits_value(d) >= 0,
    decreases d.len(),
{
    if d.len() > 0 {
        assert forall|i: int| 0 <= i < d.drop_last().len() implies #[trigger] is_digit(d.drop_last()[i]) by {
            assert(d.drop_last()[i] == d[i]);
        }
        lemma_digits_value_nonneg(d.drop_last());
        assert(is_digit(d[d.len() - 1]));
    }
}

/// Reads `b[s .. e]` as an `i64`, as `str::parse::<i64>` does.
fn parse_i64_range(b: &[u8], s: usize, e: usize) -> (r: Option<i64>)
    requires
        s <= e <= b@.len(),
    ensures
        r matches Some(v) ==> parse_i64(b@.subrange(s as int, e as int)) == Some(v as int),
        r is None ==> parse_i64(b@.subrange(s as int, e as int)) is None,
{
    let ghost t = b@.subrange(s as int, e as int);
    if s == e {
        return None;
    }
    let first = b[s];
    assert(t[0] == first);
    let signed = first == 43 || first == 45;
    let neg = first == 45;
    let start = if signed { s + 1 } else { s };
    let ghost d = if signed { t.skip(1) } else { t };
    assert(d =~= b@.subrange(start as int, e as int));
    if start == e {
        return None;
    }
    // Accumulate the magnitude in an i128, stopping once it leaves the i64 range.
    let mut acc: i128 = 0;
    let mut k: usize = start;
    while k < e
        invariant
            s <= start <= k <= e <= b@.len(),
            t == b@.subrange(s as int, e as int),
            signed == (t.len() > 0 && (t[0] == 43 || t[0] == 45)),
            neg == (t.len() > 0 && t[0] == 45),
            d == digits_part(t),
            d.len() > 0,
            d == b@.subrange(start as int, e as int),
            forall|i: int| start <= i < k ==> #[trigger] is_digit(b@[i]),
            acc == digits_value(b@.subrange(start as int, k as int)),
            0 <= acc <= 9223372036854775808,
        decreases e - k,
    {
        let c = b[k];
        if !(48 <= c && c <= 57) {
            proof {
                assert(d[k - start] == b@[k as int]);
                assert(!is_digit(d[k - start]));
                assert(!(forall|i: int| 0 <= i < d.len() ==> #[trigger] is_digit(d[i])));
                assert(parse_i64(t) is None);
            }
            return None;
        }
        let next = acc * 10 + ((c - 48) as i128);
        proof {
            let sub = b@.subrange(start as int, k + 1);
            assert(sub.drop_last() =~= b@.subrange(start as int, k as int));
            assert(sub.last() == c);
            assert(digits_value(sub) == next);
            assert(d.take(k + 1 - start) =~= sub);
        }
        k = k + 1;
        if next > 9223372036854775808 {
            proof {
                assert forall|i: int| 0 <= i < k - start implies #[trigger] is_digit(d[i]) by {
                    assert(d[i] == b@[start + i]);
                }
                lemma_digits_value_grows(d, k - start);
                assert(parse_i64(t) is None);
            }
            return None;
        }
        acc = next;
    }
    proof {
        assert forall|i: int| 0 <= i < d.len() implies #[trigger] is_digit(d[i]) by {
            assert(d[i] == b@[start + i]);
        }
    }
    if neg {
        Some((0 - acc) as i64)
    } else if acc > 9223372036854775807 {
        None
    } else {
        Some(acc as i64)
    }
}

/// Once a prefix of digits is worth more than the `i64` magnitude bound, so is the whole run.
proof fn lemma_digits_value_grows(d: Seq<u8>, n: int)
    requires
        0 <= n <= d.len(),
        forall|i: int| 0 <= i < n ==> #[trigger] is_digit(d[i]),
        digits_value(d.take(n)) > 9223372036854775808,
    ensures
        (forall|i: int| 0 <= i < d.len() ==> #[trigger] is_digit(d[i])) ==> digits_value(d) > 9223372036854775808,
    decreases d.len() - n,
{
    if n < d.len() && (forall|i: int| 0 <= i < d.len() ==> #[trigger] is_digit(d[i])) {
        assert(d.take(n + 1).drop_last() =~= d.take(n));
        assert(is_digit(d[n]));
        lemma_digits_value_grows(d, n + 1);
    } else if n == d.len() {
        assert(d.take(n) =~= d);
    }
}

// ---------------------------------------------------------------------------
// Preparing statements.

/// The bytes of the keyword `insert`.
pub open spec fn insert_keyword() -> Seq<u8> {
    seq![105u8, 110u8, 115u8, 101u8, 114u8, 116u8]
}

/// The bytes of the keyword `select`.
pub open spec fn select_keyword() -> Seq<u8> {
    seq![115u8, 101u8, 108u8, 101u8, 99u8, 116u8]
}

/// What preparing `insert <id> <username> <email>` gives, for the input bytes `b`: the id,
/// username and email columns of the row, or the error.
pub open spec fn prepared_insert(b: Seq<u8>) -> Result<(u32, Seq<u8>, Seq<u8>), PrepareError> {
    let w = split_ws(b);
    if w.len() < 2 || w[0] != insert_keyword() {
        Err(PrepareError::SyntaxError)
    } else if parse_i64(w[1]) is None {
        Err(PrepareError::SyntaxError)
    } else if parse_i64(w[1])->0 < 0 {
        Err(PrepareError::NegativeId)
    } else if parse_i64(w[1])->0 > u32::MAX {
        Err(PrepareError::SyntaxError)
    } else if w.len() != 4 {
        Err(PrepareError::SyntaxError)
    } else if w[2].len() > COLUMN_USERNAME_SIZE {
        Err(PrepareError::StringTooLong)
    } else if w[3].len() > COLUMN_EMAIL_SIZE {
        Err(PrepareError::StringTooLong)
    } else {
        Ok((parse_i64(w[1])->0 as u32, padded(w[2], COLUMN_USERNAME_SIZE as nat), padded(w[3], COLUMN_EMAIL_SIZE as nat)))
    }
}

/// Whether `b[s .. e]` spells `kw`.
fn range_equals(b: &[u8], s: usize, e: usize, kw: &[u8]) -> (r: bool)
    requires
        s <= e <= b@.len(),
    ensures
        r == (b@.subrange(s as int, e as int) == kw@),
{
    if e - s != kw.len() {
        return false;
    }
    let mut i: usize = 0;
    while i < kw.len()
        invariant
            i <= kw@.len(),
            e - s == kw@.len(),
            s <= e <= b@.len(),
            forall|m: int| 0 <= m < i ==> b@[s + m] == kw@[m],
        decreases kw@.len() - i,
    {
        if b[s + i] != kw[i] {
            proof {
                assert(b@.subrange(s as int, e as int)[i as int] != kw@[i as int]);
            }
            return false;
        }
        i = i + 1;
    }
    assert(b@.subrange(s as int, e as int) =~= kw@);
    true
}

/// Parses `insert <id> <username> <email>` into a row.
pub fn prepare_insert(input: &str) -> (r: Result<Row, PrepareError>)
    ensures
        match prepared_insert(input.spec_bytes()) {
            Ok((id, username, email)) => (r matches Ok(row) && row.wf() && row.id == id
                && row.username@ == username && row.email@ == email),
            Err(e) => r == Err::<Row, PrepareError>(e),
        },
{
    let b = input.as_bytes();
    let words = split_words(b);
    let ghost w = split_ws(b@);
    let kw: [u8; 6] = [105u8, 110u8, 115u8, 101u8, 114u8, 116u8];
    assert(kw@ =~= insert_keyword());
    if words.len() < 1 {
        return Err(PrepareError::SyntaxError);
    }
    let (s0, e0) = words[0];
    if !range_equals(b, s0, e0, kw.as_slice()) {
        return Err(PrepareError::SyntaxError);
    }
    if words.len() < 2 {
        return Err(PrepareError::SyntaxError);
    }
    let (s1, e1) = words[1];
    let id = match parse_i64_range(b, s1, e1) {
        Some(v) => v,
        None => {
            return Err(PrepareError::SyntaxError);
        },
    };
    if id < 0 {
        return Err(PrepareError::NegativeId);
    }
    if id > 4294967295 {
        return Err(PrepareError::SyntaxError);
    }
    let id: u32 = id as u32;
    if words.len() < 3 {
        return Err(PrepareError::SyntaxError);
    }
    if words.len() < 4 {
        return Err(PrepareError::SyntaxError);
    }
    if words.len() > 4 {
        return Err(PrepareError::SyntaxError);
    }
    let (s2, e2) = words[2];
    let (s3, e3) = words[3];
    let username_bytes = crate::bytes::copy_out_slice(b, s2, e2);
    let email_bytes = crate::bytes::copy_out_slice(b, s3, e3);
    let username = match VarChar::<COLUMN_USERNAME_SIZE>::from_text_bytes(username_bytes.as_slice()) {
        Ok(v) => v,
        Err(e) => {
            return Err(e);
        },
    };
    let email = match VarChar::<COLUMN_EMAIL_SIZE>::from_text_bytes(email_bytes.as_slice()) {
        Ok(v) => v,
        Err(e) => {
            return Err(e);
        },
    };
    Ok(Row::new(id, username, email))
}

/// Whether the input starts with the bytes `kw`.
fn starts_with_bytes(b: &[u8], kw: &[u8]) -> (r: bool)
    ensures
        r == (b@.len() >= kw@.len() && b@.take(kw@.len() as int) == kw@),
{
    if b.len() < kw.len() {
        return false;
    }
    let r = range_equals(b, 0, kw.len(), kw);
    assert(b@.subrange(0, kw@.len() as int) =~= b@.take(kw@.len() as int));
    r
}

/// Prepares a statement: an input that starts with `insert` is parsed as an insert, one
/// that starts with `select` is a select, anything else is unrecognized.
pub fn prepare_statement(input: &str) -> (r: Result<Statement, PrepareError>)
    ensures
        input.spec_bytes().len() >= 6 && input.spec_bytes().take(6) == insert_keyword() ==>
            match prepared_insert(input.spec_bytes()) {
                Ok((id, username, email)) => (r matches Ok(Statement::Insert(row)) && row.wf()
                    && row.id == id && row.username@ == username && row.email@ == email),
                Err(e) => r == Err::<Statement, PrepareError>(e),
            },
        !(input.spec_bytes().len() >= 6 && input.spec_bytes().take(6) == insert_keyword())
            && input.spec_bytes().len() >= 6 && input.spec_bytes().take(6) == select_keyword() ==>
            r matches Ok(Statement::Select),
        !(input.spec_bytes().len() >= 6 && input.spec_bytes().take(6) == insert_keyword())
            && !(input.spec_bytes().len() >= 6 && input.spec_bytes().take(6) == select_keyword()) ==>
            (r matches Err(PrepareError::Unrecognized(s)) && s@ == input@),
{
    let b = input.as_bytes();
    let ins: [u8; 6] = [105u8, 110u8, 115u8, 101u8, 114u8, 116u8];
    let sel: [u8; 6] = [115u8, 101u8, 108u8, 101u8, 99u8, 116u8];
    assert(ins@ =~= insert_keyword());
    assert(sel@ =~= select_keyword());
    if starts_with_bytes(b, ins.as_slice()) {
        match prepare_insert(input) {
            Ok(row) => Ok(Statement::Insert(Box::new(row))),
            Err(e) => Err(e),
        }
    } else if starts_with_bytes(b, sel.as_slice()) {
        Ok(Statement::Select)
    } else {
        Err(PrepareError::Unrecognized(input.to_owned()))
    }
}

/// The line that the input gave, or the error when it gave none or failed.
pub fn read_input(next_line: Option<Result<String, ()>>) -> (r: Result<String, String>)
    ensures
        next_line matches Some(Ok(line)) ==> r == Ok::<String, String>(line),
        !(next_line matches Some(Ok(_))) ==> (r matches Err(msg) && msg@ == "Error reading input"@),
{
    match next_line {
        Some(Ok(line)) => Ok(line),
        _ => Err("Error reading input".to_owned()),
    }
}

// ---------------------------------------------------------------------------
// Meta commands.

/// What a meta command asks for.
#[derive(Debug, Clone, Copy, PartialEq, Eq, Structural)]
pub enum MetaCommand {
    /// Save the table and leave.
    Exit,
    /// Show the layout constants.
    Constants,
    /// Show the tree.
    BTree,
}

pub open spec fn exit_command() -> Seq<u8> {
    seq![46u8, 101u8, 120u8, 105u8, 116u8]
}

pub open spec fn constants_command() -> Seq<u8> {
    seq![46u8, 99u8, 111u8, 110u8, 115u8, 116u8, 97u8, 110u8, 116u8, 115u8]
}

pub open spec fn btree_command() -> Seq<u8> {
    seq![46u8, 98u8, 116u8, 114u8, 101u8, 101u8]
}

/// Whether `b` is exactly `kw`.
fn bytes_equal(b: &[u8], kw: &[u8]) -> (r: bool)
    ensures
        r == (b@ == kw@),
{
    if b.len() != kw.len() {
        return false;
    }
    let mut i: usize = 0;
    while i < b.len()
        invariant
            b@.len() == kw@.len(),
            i <= b@.len(),
            forall|j: int| 0 <= j < i ==> b@[j] == kw@[j],
        decreases b@.len() - i,
    {
        if b[i] != kw[i] {
            return false;
        }
        i = i + 1;
    }
    assert(b@ =~= kw@);
    true
}

/// The meta command that the input line names: `.exit`, `.constants` or `.btree`; any other
/// line is refused as unrecognized.
pub fn do_meta_command(input: &str) -> (r: Result<MetaCommand, MetaCommandError>)
    ensures
        input.spec_bytes() == exit_command() ==> r == Ok::<MetaCommand, MetaCommandError>(MetaCommand::Exit),
        input.spec_bytes() == constants_command() ==> r == Ok::<MetaCommand, MetaCommandError>(MetaCommand::Constants),
        input.spec_bytes() == btree_command() ==> r == Ok::<MetaCommand, MetaCommandError>(MetaCommand::BTree),
        input.spec_bytes() != exit_command() && input.spec_bytes() != constants_command()
            && input.spec_bytes() != btree_command() ==> (r matches Err(MetaCommandError::Unrecognized(s)) && s@ == input@),
{
    let b = input.as_bytes();
    let exit: [u8; 5] = [46u8, 101u8, 120u8, 105u8, 116u8];
    let constants: [u8; 10] = [46u8, 99u8, 111u8, 110u8, 115u8, 116u8, 97u8, 110u8, 116u8, 115u8];
    let btree: [u8; 6] = [46u8, 98u8, 116u8, 114u8, 101u8, 101u8];
    assert(exit@ =~= exit_command());
    assert(constants@ =~= constants_command());
    assert(btree@ =~= btree_command());
    if bytes_equal(b, exit.as_slice()) {
        Ok(MetaCommand::Exit)
    } else if bytes_equal(b, constants.as_slice()) {
        Ok(MetaCommand::Constants)
    } else if bytes_equal(b, btree.as_slice()) {
        Ok(MetaCommand::BTree)
    } else {
        Err(MetaCommandError::Unrecognized(input.to_owned()))
    }
}

// ---------------------------------------------------------------------------
// Running statements.

/// The outcome of a leaf insertion seen through the outcome of `execute_insert`.
pub open spec fn insert_table_result(r: Result<(), ExecuteError>, key: u32) -> Result<(), TableError> {
    match r {
        Ok(v) => Ok(v),
        Err(ExecuteError::DuplicateKey) => Err(TableError::DuplicateKey(key)),
        Err(ExecuteError::CursorError(CursorError::TableError(e))) => Err(e),
        Err(_) => Err(TableError::InternalNodeFull),
    }
}

/// What inserting `row` into the table `v` leads to in `w`, for the outcome `r`: a search that
/// finds no leaf (only where some path down from the root is longer than `TABLE_MAX_PAGES`
/// internal pages) leaves the pages as they were; otherwise the row's id is searched from the
/// root and the leaf insertion at the cell found has the outcome that `leaf_insert_outcome`
/// gives, a duplicate key being reported as `DuplicateKey`.
pub open spec fn insert_executed(v: PagerView, w: PagerView, row: Row, r: Result<(), ExecuteError>) -> bool {
    &&& !(r matches Err(ExecuteError::CursorError(CursorError::TableError(TableError::DuplicateKey(_)))))
    &&& match r {
        Err(ExecuteError::CursorError(CursorError::TableError(TableError::NodeNotFound(_)))) =>
            same_tree(v, w) && !height_le(v.pages, 0, TABLE_MAX_PAGES as nat),
        _ => exists|c: CursorView, v1: PagerView| #[trigger] found_at(v.pages, 0, row.id, c, TABLE_MAX_PAGES as nat)
            && #[trigger] same_tree(v, v1)
            && leaf_insert_outcome(v1, w, c.page_num as int, c.cell_num as int, row.id, row.spec_bytes(),
                insert_table_result(r, row.id)),
    }
}

/// Inserts `row` under its id: the search for the id from the root gives the leaf cell, and
/// the row goes in there (see `Table::leaf_node_insert`); a key already there is refused as a
/// duplicate. A search that finds no leaf leaves the pages as they were.
pub fn execute_insert(row: Row, table: &mut Table) -> (r: Result<(), ExecuteError>)
    requires
        old(table).wf(),
        tree_usable(old(table)@),
        row.wf(),
    ensures
        final(table).wf(),
        insert_executed(old(table)@, final(table)@, row, r),
{
    let ghost v0 = table@;
    let key_to_insert = row.id;
    let cursor = match Cursor::table_find(table, key_to_insert) {
        Ok(c) => c,
        Err(e) => {
            return Err(ExecuteError::CursorError(e));
        },
    };
    let ghost v1 = table@;
    proof {
        lemma_reaches_in_use(v0, 0, cursor@.page_num as int, key_to_insert, TABLE_MAX_PAGES as nat);
    }
    match cursor.leaf_node_insert(table, row.id, &row) {
        Ok(v) => {
            proof {
                assert(found_at(v0.pages, 0, row.id, cursor@, TABLE_MAX_PAGES as nat));
                assert(same_tree(v0, v1));
            }
            Ok(v)
        },
        Err(CursorError::TableError(TableError::DuplicateKey(k))) => {
            proof {
                assert(found_at(v0.pages, 0, row.id, cursor@, TABLE_MAX_PAGES as nat));
                assert(same_tree(v0, v1));
            }
            Err(ExecuteError::DuplicateKey)
        },
        Err(e) => {
            proof {
                assert(found_at(v0.pages, 0, row.id, cursor@, TABLE_MAX_PAGES as nat));
                assert(same_tree(v0, v1));
            }
            Err(ExecuteError::CursorError(e))
        },
    }
}

/// The positions a scan from `c` reads before it reaches the end, in order, when it reaches the
/// end within `fuel` steps; `None` when it does not.
pub open spec fn scan_from(pages: Seq<Seq<u8>>, c: CursorView, fuel: nat) -> Option<Seq<CursorView>>
    decreases fuel,
{
    if c.end_of_table {
        Some(Seq::empty())
    } else if fuel == 0 {
        None
    } else {
        match scan_from(pages, advanced(pages, c), (fuel - 1) as nat) {
            Some(rest) => Some(seq![c] + rest),
            None => None,
        }
    }
}

/// `rows` are the rows decoded from the cells at positions `ps` of `pages`, in order.
pub open spec fn rows_read(pages: Seq<Seq<u8>>, rows: Seq<Row>, ps: Seq<CursorView>) -> bool {
    &&& rows.len() == ps.len()
    &&& forall|i: int| 0 <= i < ps.len() ==> #[trigger] rows[i].spec_bytes()
        == leaf_value(pages[ps[i].page_num as int], ps[i].cell_num as int) && rows[i].wf()
}

/// The most cells a scan reads before it gives up: every cell of every page.
pub const MAX_SCAN: usize = 1300;

/// A position that a scan can read: at the end, or on a cell of a leaf in use.
pub open spec fn readable(v: PagerView, c: CursorView) -> bool {
    !c.end_of_table ==> {
        &&& c.page_num < v.num_pages
        &&& is_leaf(v.pages[c.page_num as int])
        &&& c.cell_num < leaf_num_cells(v.pages[c.page_num as int])
    }
}

/// Every cell a scan moves to from a readable position is readable.
pub proof fn lemma_advanced_readable(v: PagerView, c: CursorView)
    requires
        tree_usable(v),
        readable(v, c),
        !c.end_of_table,
    ensures
        readable(v, advanced(v.pages, c)),
{
    assert(node_ok(v.pages, v.num_pages, c.page_num as int));
    let p = v.pages[c.page_num as int];
    let nx = next_leaf(p);
    if c.cell_num + 1 >= leaf_num_cells(p) && nx != 0 {
        assert(node_ok(v.pages, v.num_pages, nx as int));
    }
}

/// What a select on the table `v` gives: the rows read by a scan from the first row, when the
/// scan reaches the end within `MAX_SCAN` cells; a failure is a search or a scan that gives up,
/// and neither happens where every path down from the root meets a leaf within
/// `TABLE_MAX_PAGES` internal pages and the scan ends in time.
pub open spec fn select_executed(v: PagerView, r: Result<Vec<Row>, ExecuteError>) -> bool {
    &&& match r {
        Ok(rows) => exists|c: CursorView| #[trigger] found_at(v.pages, 0, 0, c, TABLE_MAX_PAGES as nat)
            && scan_from(v.pages, c, MAX_SCAN as nat) is Some
            && rows_read(v.pages, rows@, scan_from(v.pages, c, MAX_SCAN as nat)->Some_0),
        Err(e) => e matches ExecuteError::CursorError(CursorError::TableError(TableError::NodeNotFound(_))),
    }
    &&& height_le(v.pages, 0, TABLE_MAX_PAGES as nat) && (forall|c: CursorView|
        #[trigger] found_at(v.pages, 0, 0, c, TABLE_MAX_PAGES as nat) ==> scan_from(v.pages, c, MAX_SCAN as nat) is Some)
        ==> r is Ok
}

/// The rows of the table in the order of the leaf chain: a scan from the first row, each cell
/// read and decoded, until the end. A scan that does not reach the end within `MAX_SCAN` cells
/// gives up.
pub fn execute_select(table: &mut Table) -> (r: Result<Vec<Row>, ExecuteError>)
    requires
        old(table).wf(),
        tree_usable(old(table)@),
    ensures
        final(table).wf(),
        tree_usable(final(table)@),
        same_tree(old(table)@, final(table)@),
        select_executed(old(table)@, r),
{
    let ghost v0 = table@;
    let mut cursor = match Cursor::table_start(table) {
        Ok(c) => c,
        Err(e) => {
            return Err(ExecuteError::CursorError(e));
        },
    };
    let ghost c0 = cursor@;
    proof {
        lemma_reaches_in_use(v0, 0, c0.page_num as int, 0, TABLE_MAX_PAGES as nat);
        assert(readable(v0, c0));
    }
    let mut rows: Vec<Row> = Vec::new();
    let mut budget: usize = MAX_SCAN;
    let ghost mut seen: Seq<CursorView> = Seq::empty();
    while !cursor.at_end()
        invariant
            table.wf(),
            tree_usable(table@),
            same_tree(v0, table@),
            v0 == old(table)@,
            tree_usable(v0),
            found_at(v0.pages, 0, 0, c0, TABLE_MAX_PAGES as nat),
            readable(v0, cursor@),
            budget <= MAX_SCAN,
            rows_read(v0.pages, rows@, seen),
            scan_from(v0.pages, c0, MAX_SCAN as nat) == (match scan_from(v0.pages, cursor@, budget as nat) {
                Some(rest) => Some(seen + rest),
                None => None::<Seq<CursorView>>,
            }),
        decreases budget,
    {
        if budget == 0 {
            proof {
                assert(scan_from(v0.pages, cursor@, 0) is None);
                assert(scan_from(v0.pages, c0, MAX_SCAN as nat) is None);
                assert(found_at(v0.pages, 0, 0, c0, TABLE_MAX_PAGES as nat));
            }
            return Err(ExecuteError::CursorError(CursorError::TableError(TableError::NodeNotFound(cursor.page_num()))));
        }
        let ghost c = cursor@;
        proof {
            assert(node_ok(v0.pages, v0.num_pages, c.page_num as int));
        }
        let value = match cursor.cursor_value_mut(table) {
            Ok(v) => v,
            Err(e) => {
                return Err(ExecuteError::CursorError(e));
            },
        };
        let row = match Row::deserialize_row(value.as_slice()) {
            Some(row) => row,
            None => {
                return Err(ExecuteError::TableError(TableError::PagerError(PagerError::PartialPageSize)));
            },
        };
        proof {
            assert(row.spec_bytes() =~= leaf_value(v0.pages[c.page_num as int], c.cell_num as int));
        }
        rows.push(row);
        match cursor.cursor_advance(table) {
            Ok(()) => {},
            Err(e) => {
                return Err(ExecuteError::CursorError(e));
            },
        }
        proof {
            lemma_advanced_readable(v0, c);
            let rest = scan_from(v0.pages, advanced(v0.pages, c), (budget - 1) as nat);
            if rest is Some {
                assert(seq![c] + rest->Some_0 == seq![c] + rest->Some_0);
                assert(seen + (seq![c] + rest->Some_0) =~= seen.push(c) + rest->Some_0);
            }
            seen = seen.push(c);
        }
        budget = budget - 1;
    }
    proof {
        assert(scan_from(v0.pages, cursor@, budget as nat) == Some(Seq::<CursorView>::empty()));
        assert(seen + Seq::<CursorView>::empty() =~= seen);
    }
    Ok(rows)
}

/// The outcome of a statement without the rows it read.
pub open spec fn unit_result(r: Result<Vec<Row>, ExecuteError>) -> Result<(), ExecuteError> {
    match r {
        Ok(_) => Ok(()),
        Err(e) => Err(e),
    }
}

/// Runs a prepared statement: an insert (see `execute_insert`), which reads no row, or a select
/// (see `execute_select`), which gives the rows read.
pub fn execute_statement(statement: Statement, table: &mut Table) -> (r: Result<Vec<Row>, ExecuteError>)
    requires
        old(table).wf(),
        tree_usable(old(table)@),
        statement matches Statement::Insert(row) ==> row.wf(),
    ensures
        final(table).wf(),
        match statement {
            Statement::Insert(row) => insert_executed(old(table)@, final(table)@, *row, unit_result(r))
                && (r matches Ok(rows) ==> rows@.len() == 0),
            Statement::Select => select_executed(old(table)@, r) && same_tree(old(table)@, final(table)@),
        },
{
    match statement {
        Statement::Insert(row) => match execute_insert(*row, table) {
            Ok(_) => Ok(Vec::new()),
            Err(e) => Err(e),
        },
        Statement::Select => execute_select(table),
    }
}

} // verus!
