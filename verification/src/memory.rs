//! The user's memory as one file that checks itself.
//!
//! The file holds two tables, one after the other, and ends in a checksum over
//! all that comes before. All numbers are little-endian:
//!
//! ```text
//! "STELEMEM"  version  count  record*  count  prediction*  checksum
//! ```

use vstd::prelude::*;
use vstd::slice::slice_subrange;
use vstd::utf8::{
    decode_utf8, decode_utf8_encode_utf8, encode_utf8, encode_utf8_decode_utf8,
    encode_utf8_valid_utf8, valid_utf8,
};
use vstd::arithmetic::div_mod::{
    lemma_mul_mod_noop_left, lemma_mul_mod_noop_right, lemma_small_mod,
};
use vstd::arithmetic::mul::lemma_mul_is_associative;
use crate::order::views;
use crate::text::{decimal, decimal_text, hexadecimal, hexadecimal_text};

verus! {

/// The version that this code reads and writes.
pub const VERSION: u32 = 2;

/// The bytes that every file starts with: `STELEMEM`.
pub open spec fn magic_bytes() -> Seq<u8> {
    seq![83u8, 84u8, 69u8, 76u8, 69u8, 77u8, 69u8, 77u8]
}

/// The bytes that every file starts with: `STELEMEM`.
pub fn magic() -> (r: Vec<u8>)
    ensures
        r@ == magic_bytes(),
{
    let r: Vec<u8> = vec![83u8, 84u8, 69u8, 76u8, 69u8, 77u8, 69u8, 77u8];
    assert(r@ =~= magic_bytes());
    r
}

/// A word that was chosen for an input.
#[derive(Clone, Debug, PartialEq, Eq)]
pub struct Record {
    pub input: String,
    pub text: String,
    /// How often it was committed.
    pub count: u32,
    /// The decayed frequency, in thousandths.
    pub decayed_milli: u64,
    /// When it was last used, in seconds.
    pub last_used: u64,
}

/// The mathematical reading of a [`Record`].
pub struct Kept {
    pub input: Seq<char>,
    pub text: Seq<char>,
    pub count: u32,
    pub decayed_milli: u64,
    pub last_used: u64,
}

impl View for Record {
    type V = Kept;

    open spec fn view(&self) -> Kept {
        Kept {
            input: self.input@,
            text: self.text@,
            count: self.count,
            decayed_milli: self.decayed_milli,
            last_used: self.last_used,
        }
    }
}

/// A word that followed two others. With an empty first word it followed one.
#[derive(Clone, Debug, PartialEq, Eq)]
pub struct PredRecord {
    pub ctx1: String,
    pub ctx2: String,
    pub text: String,
    pub count: u32,
    pub decayed_milli: u64,
    pub last_used: u64,
}

/// The mathematical reading of a [`PredRecord`].
pub struct Followed {
    pub ctx1: Seq<char>,
    pub ctx2: Seq<char>,
    pub text: Seq<char>,
    pub count: u32,
    pub decayed_milli: u64,
    pub last_used: u64,
}

impl View for PredRecord {
    type V = Followed;

    open spec fn view(&self) -> Followed {
        Followed {
            ctx1: self.ctx1@,
            ctx2: self.ctx2@,
            text: self.text@,
            count: self.count,
            decayed_milli: self.decayed_milli,
            last_used: self.last_used,
        }
    }
}

/// Why a file was refused.
#[derive(Clone, Copy, Debug, PartialEq, Eq, Structural)]
pub enum FormatError {
    /// The file ends too early, or too late.
    Truncated,
    NotMemoryFile,
    UnsupportedVersion(u32),
    ChecksumMismatch { expected: u64, found: u64 },
    /// A text is no UTF-8.
    BadText,
}

/// What is said of a refused file.
pub open spec fn fault_text(e: FormatError) -> Seq<char> {
    match e {
        FormatError::Truncated => "文件被截断"@,
        FormatError::NotMemoryFile => "不是用户记忆文件（魔数不符）"@,
        FormatError::UnsupportedVersion(v) => "格式版本 "@ + decimal(v as nat)
            + " 不受支持（本程序只认 "@ + decimal(VERSION as nat) + "）"@,
        FormatError::ChecksumMismatch { expected, found } => "校验和不符（记录 0x"@
            + hexadecimal(expected as nat) + "，实得 0x"@ + hexadecimal(found as nat) + "）"@,
        FormatError::BadText => "文本不是合法 UTF-8"@,
    }
}

impl FormatError {
    /// The message for a log.
    pub fn message(&self) -> (r: String)
        ensures
            r@ == fault_text(*self),
    {
        match self {
            FormatError::Truncated => "文件被截断".to_owned(),
            FormatError::NotMemoryFile => "不是用户记忆文件（魔数不符）".to_owned(),
            FormatError::UnsupportedVersion(v) => "格式版本 ".to_owned().concat(
                decimal_text(*v as u64).as_str(),
            ).concat(" 不受支持（本程序只认 ").concat(
                decimal_text(VERSION as u64).as_str(),
            ).concat("）"),
            FormatError::ChecksumMismatch { expected, found } => "校验和不符（记录 0x".to_owned(

            ).concat(hexadecimal_text(*expected).as_str()).concat("，实得 0x").concat(
                hexadecimal_text(*found).as_str(),
            ).concat("）"),
            FormatError::BadText => "文本不是合法 UTF-8".to_owned(),
        }
    }
}

// ---------------------------------------------------------------------------
// Numbers and the checksum
// ---------------------------------------------------------------------------

/// The last `k` bytes of a number, the lowest first.
pub open spec fn le_bytes(n: nat, k: nat) -> Seq<u8>
    decreases k,
{
    if k == 0 {
        seq![]
    } else {
        seq![(n % 256) as u8] + le_bytes(n / 256, (k - 1) as nat)
    }
}

/// The number that bytes stand for, the lowest first.
pub open spec fn le_value(s: Seq<u8>) -> nat
    decreases s.len(),
{
    if s.len() == 0 {
        0
    } else {
        s[0] as nat + 256 * le_value(s.skip(1))
    }
}

/// Two hundred fifty-six to the `k`.
pub open spec fn byte_range(k: nat) -> nat
    decreases k,
{
    if k == 0 {
        1
    } else {
        256 * byte_range((k - 1) as nat)
    }
}

proof fn le_reads_back(n: nat, k: nat)
    requires
        n < byte_range(k),
    ensures
        le_bytes(n, k).len() == k,
        le_value(le_bytes(n, k)) == n,
    decreases k,
{
    if k > 0 {
        le_reads_back(n / 256, (k - 1) as nat);
        assert(le_bytes(n, k).skip(1) =~= le_bytes(n / 256, (k - 1) as nat));
    }
}

proof fn le_bytes_len(n: nat, k: nat)
    ensures
        le_bytes(n, k).len() == k,
    decreases k,
{
    if k > 0 {
        le_bytes_len(n / 256, (k - 1) as nat);
    }
}

proof fn le_value_bound(s: Seq<u8>)
    ensures
        le_value(s) < byte_range(s.len()),
    decreases s.len(),
{
    if s.len() > 0 {
        le_value_bound(s.skip(1));
    }
}

proof fn byte_ranges()
    ensures
        byte_range(4) == 0x1_0000_0000,
        byte_range(8) == 0x1_0000_0000_0000_0000,
{
    reveal_with_fuel(byte_range, 9);
}

pub(crate) fn put_number(out: &mut Vec<u8>, n: u64, k: usize)
    requires
        k <= 8,
    ensures
        final(out)@ == old(out)@ + le_bytes(n as nat, k as nat),
{
    let mut rest: u64 = n;
    let mut i: usize = 0;
    let ghost before = out@;
    assert(before + le_bytes(n as nat, k as nat) =~= out@ + le_bytes(rest as nat, k as nat));
    while i < k
        invariant
            i <= k,
            out@ + le_bytes(rest as nat, (k - i) as nat) == before + le_bytes(n as nat, k as nat),
        decreases k - i,
    {
        let b: u8 = (rest % 256) as u8;
        let ghost was = out@;
        out.push(b);
        assert(was + le_bytes(rest as nat, (k - i) as nat) =~= out@ + le_bytes(
            rest as nat / 256,
            (k - i - 1) as nat,
        ));
        rest = rest / 256;
        i += 1;
    }
    assert(out@ + le_bytes(rest as nat, 0) =~= out@);
}

fn get_number(bytes: &[u8]) -> (r: u64)
    requires
        bytes@.len() <= 8,
    ensures
        r == le_value(bytes@),
{
    let mut i: usize = bytes.len();
    let mut acc: u64 = 0;
    assert(bytes@.skip(i as int) =~= seq![]);
    while i > 0
        invariant
            i <= bytes@.len() <= 8,
            acc == le_value(bytes@.skip(i as int)),
        decreases i,
    {
        i -= 1;
        proof {
            let s = bytes@.skip(i as int);
            assert(s.skip(1) =~= bytes@.skip(i + 1));
            le_value_bound(s);
            reveal_with_fuel(byte_range, 9);
            assert(byte_range(s.len()) <= byte_range(8)) by {
                let n = s.len();
                assert(n == 1 || n == 2 || n == 3 || n == 4 || n == 5 || n == 6 || n == 7 || n
                    == 8);
            }
        }
        acc = bytes[i] as u64 + 256 * acc;
    }
    assert(bytes@.skip(0) =~= bytes@);
    acc
}

/// Two to the sixty-fourth.
pub open spec fn word() -> int {
    0x1_0000_0000_0000_0000
}

/// The FNV-1a checksum of sixty-four bits.
pub open spec fn checksum(bytes: Seq<u8>) -> u64
    decreases bytes.len(),
{
    if bytes.len() == 0 {
        0xcbf2_9ce4_8422_2325
    } else {
        (((checksum(bytes.drop_last()) ^ (bytes.last() as u64)) * 0x0000_0100_0000_01b3)
            % word()) as u64
    }
}

/// The FNV-1a checksum of sixty-four bits.
pub fn fnv1a(bytes: &[u8]) -> (r: u64)
    ensures
        r == checksum(bytes@),
{
    let mut h: u64 = 0xcbf2_9ce4_8422_2325;
    let mut i: usize = 0;
    assert(bytes@.take(0) =~= seq![]);
    while i < bytes.len()
        invariant
            i <= bytes@.len(),
            h == checksum(bytes@.take(i as int)),
        decreases bytes.len() - i,
    {
        let b: u64 = bytes[i] as u64;
        proof {
            let t = bytes@.take(i + 1);
            assert(t.drop_last() =~= bytes@.take(i as int));
            assert(t.last() == bytes@[i as int]);
        }
        h = (h ^ b).wrapping_mul(0x0000_0100_0000_01b3u64);
        i += 1;
    }
    assert(bytes@.take(i as int) =~= bytes@);
    h
}

// ---------------------------------------------------------------------------
// Writing
// ---------------------------------------------------------------------------

/// A length as it is written: what does not fit is cut to the largest.
pub open spec fn written_len(n: nat) -> nat {
    if n <= u32::MAX {
        n
    } else {
        u32::MAX as nat
    }
}

/// Bytes with their length before them.
pub open spec fn framed(b: Seq<u8>) -> Seq<u8> {
    le_bytes(written_len(b.len()), 4) + b
}

/// How a record's counters are written.
pub open spec fn tail_bytes(count: u32, decayed_milli: u64, last_used: u64) -> Seq<u8> {
    le_bytes(count as nat, 4) + le_bytes(decayed_milli as nat, 8) + le_bytes(last_used as nat, 8)
}

pub open spec fn record_bytes(r: Kept) -> Seq<u8> {
    framed(encode_utf8(r.input)) + framed(encode_utf8(r.text)) + tail_bytes(
        r.count,
        r.decayed_milli,
        r.last_used,
    )
}

pub open spec fn pred_bytes(p: Followed) -> Seq<u8> {
    framed(encode_utf8(p.ctx1)) + framed(encode_utf8(p.ctx2)) + framed(encode_utf8(p.text))
        + tail_bytes(p.count, p.decayed_milli, p.last_used)
}

pub open spec fn records_bytes(rs: Seq<Kept>) -> Seq<u8>
    decreases rs.len(),
{
    if rs.len() == 0 {
        seq![]
    } else {
        records_bytes(rs.drop_last()) + record_bytes(rs.last())
    }
}

pub open spec fn preds_bytes(ps: Seq<Followed>) -> Seq<u8>
    decreases ps.len(),
{
    if ps.len() == 0 {
        seq![]
    } else {
        preds_bytes(ps.drop_last()) + pred_bytes(ps.last())
    }
}

/// A file without its checksum.
pub open spec fn body_bytes(rs: Seq<Kept>, ps: Seq<Followed>) -> Seq<u8> {
    magic_bytes() + le_bytes(VERSION as nat, 4) + le_bytes(written_len(rs.len()), 4)
        + records_bytes(rs) + le_bytes(written_len(ps.len()), 4) + preds_bytes(ps)
}

/// Bytes with their checksum behind them.
pub open spec fn sealed(body: Seq<u8>) -> Seq<u8> {
    body + le_bytes(checksum(body) as nat, 8)
}

fn put_all(out: &mut Vec<u8>, bytes: &[u8])
    ensures
        final(out)@ == old(out)@ + bytes@,
{
    let mut i: usize = 0;
    let ghost before = out@;
    assert(out@ =~= before + bytes@.take(0));
    while i < bytes.len()
        invariant
            i <= bytes@.len(),
            out@ == before + bytes@.take(i as int),
        decreases bytes.len() - i,
    {
        out.push(bytes[i]);
        i += 1;
        assert(out@ =~= before + bytes@.take(i as int));
    }
    assert(bytes@.take(i as int) =~= bytes@);
}

fn put_len(out: &mut Vec<u8>, n: usize)
    ensures
        final(out)@ == old(out)@ + le_bytes(written_len(n as nat), 4),
{
    let n64: u64 = n as u64;
    let len: u64 = if n64 <= u32::MAX as u64 {
        n64
    } else {
        u32::MAX as u64
    };
    put_number(out, len, 4);
}

fn put_bytes(out: &mut Vec<u8>, bytes: &[u8])
    ensures
        final(out)@ == old(out)@ + framed(bytes@),
{
    let ghost before = out@;
    put_len(out, bytes.len());
    put_all(out, bytes);
    assert(out@ =~= before + framed(bytes@));
}

fn put_text(out: &mut Vec<u8>, s: &str)
    ensures
        final(out)@ == old(out)@ + framed(encode_utf8(s@)),
{
    put_bytes(out, s.as_bytes());
}

fn put_entry_tail(out: &mut Vec<u8>, count: u32, decayed_milli: u64, last_used: u64)
    ensures
        final(out)@ == old(out)@ + tail_bytes(count, decayed_milli, last_used),
{
    let ghost before = out@;
    put_number(out, count as u64, 4);
    put_number(out, decayed_milli, 8);
    put_number(out, last_used, 8);
    assert(out@ =~= before + tail_bytes(count, decayed_milli, last_used));
}

/// Writes the two tables as one file.
pub fn encode(records: &[Record], predictions: &[PredRecord]) -> (r: Vec<u8>)
    ensures
        r@ == sealed(body_bytes(views(records@), views(predictions@))),
{
    let ghost rs = views(records@);
    let ghost ps = views(predictions@);
    let mut out: Vec<u8> = magic();
    put_number(&mut out, VERSION as u64, 4);
    put_len(&mut out, records.len());
    let ghost head = out@;
    let mut i: usize = 0;
    assert(rs.take(0) =~= seq![]);
    assert(out@ =~= head + records_bytes(rs.take(0)));
    while i < records.len()
        invariant
            i <= records@.len(),
            rs == views(records@),
            out@ == head + records_bytes(rs.take(i as int)),
        decreases records.len() - i,
    {
        let r = &records[i];
        let ghost was = out@;
        put_text(&mut out, r.input.as_str());
        put_text(&mut out, r.text.as_str());
        put_entry_tail(&mut out, r.count, r.decayed_milli, r.last_used);
        proof {
            let t = rs.take(i + 1);
            assert(t.drop_last() =~= rs.take(i as int));
            assert(t.last() == r@);
            assert(out@ =~= was + record_bytes(r@));
            assert(out@ =~= head + records_bytes(t));
        }
        i += 1;
    }
    assert(rs.take(i as int) =~= rs);
    put_len(&mut out, predictions.len());
    let ghost mid = out@;
    let mut j: usize = 0;
    assert(ps.take(0) =~= seq![]);
    assert(out@ =~= mid + preds_bytes(ps.take(0)));
    while j < predictions.len()
        invariant
            j <= predictions@.len(),
            ps == views(predictions@),
            out@ == mid + preds_bytes(ps.take(j as int)),
        decreases predictions.len() - j,
    {
        let p = &predictions[j];
        let ghost was = out@;
        put_text(&mut out, p.ctx1.as_str());
        put_text(&mut out, p.ctx2.as_str());
        put_text(&mut out, p.text.as_str());
        put_entry_tail(&mut out, p.count, p.decayed_milli, p.last_used);
        proof {
            let t = ps.take(j + 1);
            assert(t.drop_last() =~= ps.take(j as int));
            assert(t.last() == p@);
            assert(out@ =~= was + pred_bytes(p@));
            assert(out@ =~= mid + preds_bytes(t));
        }
        j += 1;
    }
    assert(ps.take(j as int) =~= ps);
    assert(out@ =~= body_bytes(rs, ps));
    let sum: u64 = fnv1a(out.as_slice());
    put_number(&mut out, sum, 8);
    out
}

// ---------------------------------------------------------------------------
// Reading
// ---------------------------------------------------------------------------

/// The `k` bytes at `pos` as a number, and where they end.
pub open spec fn number_at(b: Seq<u8>, pos: int, k: int) -> Result<(nat, int), FormatError> {
    if pos + k <= b.len() {
        Ok((le_value(b.subrange(pos, pos + k)), pos + k))
    } else {
        Err(FormatError::Truncated)
    }
}

/// The text at `pos`, and where it ends.
pub open spec fn text_at(b: Seq<u8>, pos: int) -> Result<(Seq<char>, int), FormatError> {
    match number_at(b, pos, 4) {
        Err(e) => Err(e),
        Ok((n, p)) => if p + n > b.len() {
            Err(FormatError::Truncated)
        } else if !valid_utf8(b.subrange(p, p + n)) {
            Err(FormatError::BadText)
        } else {
            Ok((decode_utf8(b.subrange(p, p + n)), p + n))
        },
    }
}

/// The three counters at `pos`, and where they end.
pub open spec fn tail_at(b: Seq<u8>, pos: int) -> Result<((u32, u64, u64), int), FormatError> {
    match number_at(b, pos, 4) {
        Err(e) => Err(e),
        Ok((count, p1)) => match number_at(b, p1, 8) {
            Err(e) => Err(e),
            Ok((decayed, p2)) => match number_at(b, p2, 8) {
                Err(e) => Err(e),
                Ok((last, p3)) => Ok(((count as u32, decayed as u64, last as u64), p3)),
            },
        },
    }
}

pub open spec fn record_at(b: Seq<u8>, pos: int) -> Result<(Kept, int), FormatError> {
    match text_at(b, pos) {
        Err(e) => Err(e),
        Ok((input, p1)) => match text_at(b, p1) {
            Err(e) => Err(e),
            Ok((text, p2)) => match tail_at(b, p2) {
                Err(e) => Err(e),
                Ok(((count, decayed_milli, last_used), p3)) => Ok(
                    (Kept { input, text, count, decayed_milli, last_used }, p3),
                ),
            },
        },
    }
}

pub open spec fn pred_at(b: Seq<u8>, pos: int) -> Result<(Followed, int), FormatError> {
    match text_at(b, pos) {
        Err(e) => Err(e),
        Ok((ctx1, p1)) => match text_at(b, p1) {
            Err(e) => Err(e),
            Ok((ctx2, p2)) => match text_at(b, p2) {
                Err(e) => Err(e),
                Ok((text, p3)) => match tail_at(b, p3) {
                    Err(e) => Err(e),
                    Ok(((count, decayed_milli, last_used), p4)) => Ok(
                        (Followed { ctx1, ctx2, text, count, decayed_milli, last_used }, p4),
                    ),
                },
            },
        },
    }
}

/// `n` records from `pos` on, and where they end.
pub open spec fn records_at(b: Seq<u8>, pos: int, n: nat) -> Result<(Seq<Kept>, int), FormatError>
    decreases n,
{
    if n == 0 {
        Ok((seq![], pos))
    } else {
        match record_at(b, pos) {
            Err(e) => Err(e),
            Ok((r, p)) => match records_at(b, p, (n - 1) as nat) {
                Err(e) => Err(e),
                Ok((rs, q)) => Ok((seq![r] + rs, q)),
            },
        }
    }
}

/// `n` predictions from `pos` on, and where they end.
pub open spec fn preds_at(b: Seq<u8>, pos: int, n: nat) -> Result<
    (Seq<Followed>, int),
    FormatError,
>
    decreases n,
{
    if n == 0 {
        Ok((seq![], pos))
    } else {
        match pred_at(b, pos) {
            Err(e) => Err(e),
            Ok((r, p)) => match preds_at(b, p, (n - 1) as nat) {
                Err(e) => Err(e),
                Ok((rs, q)) => Ok((seq![r] + rs, q)),
            },
        }
    }
}

/// What the part of a file before its checksum holds.
pub open spec fn body_read(b: Seq<u8>) -> Result<(Seq<Kept>, Seq<Followed>), FormatError> {
    if b.len() < 8 {
        Err(FormatError::Truncated)
    } else {
        match number_at(b, 8, 4) {
            Err(e) => Err(e),
            Ok((version, p0)) => if version != VERSION {
                Err(FormatError::UnsupportedVersion(version as u32))
            } else {
                match number_at(b, p0, 4) {
                    Err(e) => Err(e),
                    Ok((n, p1)) => match records_at(b, p1, n) {
                        Err(e) => Err(e),
                        Ok((rs, p2)) => match number_at(b, p2, 4) {
                            Err(e) => Err(e),
                            Ok((m, p3)) => match preds_at(b, p3, m) {
                                Err(e) => Err(e),
                                Ok((ps, p4)) => if p4 != b.len() {
                                    Err(FormatError::Truncated)
                                } else {
                                    Ok((rs, ps))
                                },
                            },
                        },
                    },
                }
            },
        }
    }
}

/// What a file holds. The first bytes are looked at first, then the checksum,
/// then the rest; whatever does not fit refuses the whole file.
pub open spec fn file_read(bytes: Seq<u8>) -> Result<(Seq<Kept>, Seq<Followed>), FormatError> {
    if bytes.len() < 8 {
        Err(FormatError::Truncated)
    } else if bytes.take(8) != magic_bytes() {
        Err(FormatError::NotMemoryFile)
    } else {
        let body = bytes.take(bytes.len() - 8);
        let found = le_value(bytes.skip(bytes.len() - 8));
        if found != checksum(body) {
            Err(FormatError::ChecksumMismatch { expected: checksum(body), found: found as u64 })
        } else {
            body_read(body)
        }
    }
}

/// `core::str::from_utf8`: the text that bytes encode, where they are UTF-8.
#[verifier::external_body]
fn from_utf8(bytes: &[u8]) -> (r: Option<String>)
    ensures
        match r {
            Some(s) => valid_utf8(bytes@) && s@ == decode_utf8(bytes@),
            None => !valid_utf8(bytes@),
        },
{
    match core::str::from_utf8(bytes) {
        Ok(s) => Some(s.to_owned()),
        Err(_) => None,
    }
}

/// Reads bytes from front to back.
struct Cursor<'a> {
    bytes: &'a [u8],
    pos: usize,
}

impl<'a> Cursor<'a> {
    spec fn wf(&self) -> bool {
        self.pos <= self.bytes@.len()
    }

    fn new(bytes: &'a [u8]) -> (r: Self)
        ensures
            r.wf(),
            r.bytes@ == bytes@,
            r.pos == 0,
    {
        Cursor { bytes, pos: 0 }
    }

    fn take(&mut self, n: usize) -> (r: Result<&'a [u8], FormatError>)
        requires
            old(self).wf(),
        ensures
            final(self).wf(),
            final(self).bytes@ == old(self).bytes@,
            if old(self).pos + n <= old(self).bytes@.len() {
                r matches Ok(s) && s@ == old(self).bytes@.subrange(
                    old(self).pos as int,
                    old(self).pos + n,
                ) && final(self).pos == old(self).pos + n
            } else {
                r == Err::<&'a [u8], FormatError>(FormatError::Truncated)
            },
    {
        if n > self.bytes.len() - self.pos {
            return Err(FormatError::Truncated);
        }
        let end: usize = self.pos + n;
        let s = slice_subrange(self.bytes, self.pos, end);
        self.pos = end;
        Ok(s)
    }

    fn u32(&mut self) -> (r: Result<u32, FormatError>)
        requires
            old(self).wf(),
        ensures
            final(self).wf(),
            final(self).bytes@ == old(self).bytes@,
            match number_at(old(self).bytes@, old(self).pos as int, 4) {
                Ok((n, p)) => r matches Ok(x) && x == n && final(self).pos == p,
                Err(e) => r matches Err(x) && x == e,
            },
    {
        let b = self.take(4)?;
        let n: u64 = get_number(b);
        proof {
            le_value_bound(b@);
            byte_ranges();
        }
        Ok(n as u32)
    }

    fn u64(&mut self) -> (r: Result<u64, FormatError>)
        requires
            old(self).wf(),
        ensures
            final(self).wf(),
            final(self).bytes@ == old(self).bytes@,
            match number_at(old(self).bytes@, old(self).pos as int, 8) {
                Ok((n, p)) => r matches Ok(x) && x == n && final(self).pos == p,
                Err(e) => r matches Err(x) && x == e,
            },
    {
        let b = self.take(8)?;
        Ok(get_number(b))
    }

    fn len_prefixed_str(&mut self) -> (r: Result<String, FormatError>)
        requires
            old(self).wf(),
        ensures
            final(self).wf(),
            final(self).bytes@ == old(self).bytes@,
            match text_at(old(self).bytes@, old(self).pos as int) {
                Ok((s, p)) => r matches Ok(x) && x@ == s && final(self).pos == p,
                Err(e) => r matches Err(x) && x == e,
            },
    {
        let len: u32 = self.u32()?;
        let bytes = self.take(len as usize)?;
        match from_utf8(bytes) {
            Some(s) => Ok(s),
            None => Err(FormatError::BadText),
        }
    }

    fn entry_tail(&mut self) -> (r: Result<(u32, u64, u64), FormatError>)
        requires
            old(self).wf(),
        ensures
            final(self).wf(),
            final(self).bytes@ == old(self).bytes@,
            match tail_at(old(self).bytes@, old(self).pos as int) {
                Ok((t, p)) => r matches Ok(x) && x == t && final(self).pos == p,
                Err(e) => r matches Err(x) && x == e,
            },
    {
        let count: u32 = self.u32()?;
        let decayed_milli: u64 = self.u64()?;
        let last_used: u64 = self.u64()?;
        Ok((count, decayed_milli, last_used))
    }

    fn record(&mut self) -> (r: Result<Record, FormatError>)
        requires
            old(self).wf(),
        ensures
            final(self).wf(),
            final(self).bytes@ == old(self).bytes@,
            match record_at(old(self).bytes@, old(self).pos as int) {
                Ok((t, p)) => r matches Ok(x) && x@ == t && final(self).pos == p,
                Err(e) => r matches Err(x) && x == e,
            },
    {
        let input = self.len_prefixed_str()?;
        let text = self.len_prefixed_str()?;
        let (count, decayed_milli, last_used) = self.entry_tail()?;
        Ok(Record { input, text, count, decayed_milli, last_used })
    }

    fn prediction(&mut self) -> (r: Result<PredRecord, FormatError>)
        requires
            old(self).wf(),
        ensures
            final(self).wf(),
            final(self).bytes@ == old(self).bytes@,
            match pred_at(old(self).bytes@, old(self).pos as int) {
                Ok((t, p)) => r matches Ok(x) && x@ == t && final(self).pos == p,
                Err(e) => r matches Err(x) && x == e,
            },
    {
        let ctx1 = self.len_prefixed_str()?;
        let ctx2 = self.len_prefixed_str()?;
        let text = self.len_prefixed_str()?;
        let (count, decayed_milli, last_used) = self.entry_tail()?;
        Ok(PredRecord { ctx1, ctx2, text, count, decayed_milli, last_used })
    }

    fn records(&mut self, n: u32) -> (r: Result<Vec<Record>, FormatError>)
        requires
            old(self).wf(),
        ensures
            final(self).wf(),
            final(self).bytes@ == old(self).bytes@,
            match records_at(old(self).bytes@, old(self).pos as int, n as nat) {
                Ok((t, p)) => r matches Ok(x) && views(x@) == t && final(self).pos == p,
                Err(e) => r matches Err(x) && x == e,
            },
    {
        let mut out: Vec<Record> = Vec::new();
        let ghost b = self.bytes@;
        let ghost whole = records_at(b, self.pos as int, n as nat);
        let mut i: u32 = 0;
        assert(views(out@) =~= seq![]);
        proof {
            if let Ok((rest, q)) = whole {
                assert(views(out@) + rest =~= rest);
            }
        }
        while i < n
            invariant
                i <= n,
                self.wf(),
                self.bytes@ == b,
                b == old(self).bytes@,
                whole == records_at(old(self).bytes@, old(self).pos as int, n as nat),
                match records_at(b, self.pos as int, (n - i) as nat) {
                    Ok((rest, q)) => whole == Ok::<(Seq<Kept>, int), FormatError>(
                        (views(out@) + rest, q),
                    ),
                    Err(e) => whole == Err::<(Seq<Kept>, int), FormatError>(e),
                },
            decreases n - i,
        {
            let ghost had = out@;
            let x = self.record()?;
            let ghost v = x@;
            out.push(x);
            proof {
                assert(views(out@) =~= views(had).push(v));
                if let Ok((rest, q)) = records_at(b, self.pos as int, (n - i - 1) as nat) {
                    assert(views(had) + (seq![v] + rest) =~= views(out@) + rest);
                }
            }
            i += 1;
        }
        assert(views(out@) + seq![] =~= views(out@));
        Ok(out)
    }

    fn predictions(&mut self, n: u32) -> (r: Result<Vec<PredRecord>, FormatError>)
        requires
            old(self).wf(),
        ensures
            final(self).wf(),
            final(self).bytes@ == old(self).bytes@,
            match preds_at(old(self).bytes@, old(self).pos as int, n as nat) {
                Ok((t, p)) => r matches Ok(x) && views(x@) == t && final(self).pos == p,
                Err(e) => r matches Err(x) && x == e,
            },
    {
        let mut out: Vec<PredRecord> = Vec::new();
        let ghost b = self.bytes@;
        let ghost whole = preds_at(b, self.pos as int, n as nat);
        let mut i: u32 = 0;
        assert(views(out@) =~= seq![]);
        proof {
            if let Ok((rest, q)) = whole {
                assert(views(out@) + rest =~= rest);
            }
        }
        while i < n
            invariant
                i <= n,
                self.wf(),
                self.bytes@ == b,
                b == old(self).bytes@,
                whole == preds_at(old(self).bytes@, old(self).pos as int, n as nat),
                match preds_at(b, self.pos as int, (n - i) as nat) {
                    Ok((rest, q)) => whole == Ok::<(Seq<Followed>, int), FormatError>(
                        (views(out@) + rest, q),
                    ),
                    Err(e) => whole == Err::<(Seq<Followed>, int), FormatError>(e),
                },
            decreases n - i,
        {
            let ghost had = out@;
            let x = self.prediction()?;
            let ghost v = x@;
            out.push(x);
            proof {
                assert(views(out@) =~= views(had).push(v));
                if let Ok((rest, q)) = preds_at(b, self.pos as int, (n - i - 1) as nat) {
                    assert(views(had) + (seq![v] + rest) =~= views(out@) + rest);
                }
            }
            i += 1;
        }
        assert(views(out@) + seq![] =~= views(out@));
        Ok(out)
    }
}

fn same_bytes(a: &[u8], b: &[u8]) -> (r: bool)
    ensures
        r == (a@ == b@),
{
    if a.len() != b.len() {
        return false;
    }
    let mut i: usize = 0;
    while i < a.len()
        invariant
            i <= a@.len(),
            a@.len() == b@.len(),
            forall|j: int| 0 <= j < i ==> a@[j] == b@[j],
        decreases a.len() - i,
    {
        if a[i] != b[i] {
            assert(a@ != b@);
            return false;
        }
        i += 1;
    }
    assert(a@ =~= b@);
    true
}

/// Reads a file. Whatever does not fit refuses the whole file.
pub fn decode(bytes: &[u8]) -> (r: Result<(Vec<Record>, Vec<PredRecord>), FormatError>)
    ensures
        match file_read(bytes@) {
            Ok((rs, ps)) => r matches Ok((x, y)) && views(x@) == rs && views(y@) == ps,
            Err(e) => r matches Err(x) && x == e,
        },
{
    if bytes.len() < 8 {
        return Err(FormatError::Truncated);
    }
    let head = slice_subrange(bytes, 0, 8);
    assert(head@ =~= bytes@.take(8));
    if !same_bytes(head, magic().as_slice()) {
        return Err(FormatError::NotMemoryFile);
    }
    let sum_at: usize = bytes.len() - 8;
    let body = slice_subrange(bytes, 0, sum_at);
    let tail = slice_subrange(bytes, sum_at, bytes.len());
    assert(body@ =~= bytes@.take(bytes@.len() - 8));
    assert(tail@ =~= bytes@.skip(bytes@.len() - 8));
    let found: u64 = get_number(tail);
    let expected: u64 = fnv1a(body);
    if found != expected {
        return Err(FormatError::ChecksumMismatch { expected, found });
    }
    let mut c = Cursor::new(body);
    c.take(8)?;
    let version: u32 = c.u32()?;
    if version != VERSION {
        return Err(FormatError::UnsupportedVersion(version));
    }
    let count: u32 = c.u32()?;
    let out = c.records(count)?;
    let pcount: u32 = c.u32()?;
    let preds = c.predictions(pcount)?;
    if c.pos != body.len() {
        return Err(FormatError::Truncated);
    }
    Ok((out, preds))
}

// ---------------------------------------------------------------------------
// Laws
// ---------------------------------------------------------------------------

/// Whether a text's length fits its field.
pub open spec fn text_fits(s: Seq<char>) -> bool {
    encode_utf8(s).len() <= u32::MAX
}

/// Whether all lengths of two tables fit their fields.
pub open spec fn tables_fit(rs: Seq<Kept>, ps: Seq<Followed>) -> bool {
    &&& rs.len() <= u32::MAX
    &&& ps.len() <= u32::MAX
    &&& forall|i: int|
        0 <= i < rs.len() ==> text_fits((#[trigger] rs[i]).input) && text_fits(rs[i].text)
    &&& forall|i: int|
        0 <= i < ps.len() ==> text_fits((#[trigger] ps[i]).ctx1) && text_fits(ps[i].ctx2)
            && text_fits(ps[i].text)
}

/// Whether `piece` stands in `b` at `pos`.
spec fn stands(b: Seq<u8>, pos: int, piece: Seq<u8>) -> bool {
    0 <= pos && pos + piece.len() <= b.len() && b.subrange(pos, pos + piece.len()) == piece
}

proof fn halves_stand(b: Seq<u8>, pos: int, x: Seq<u8>, y: Seq<u8>)
    requires
        stands(b, pos, x + y),
    ensures
        stands(b, pos, x),
        stands(b, pos + x.len(), y),
{
    let xy = b.subrange(pos, pos + (x + y).len());
    assert(b.subrange(pos, pos + x.len()) =~= xy.take(x.len() as int));
    assert((x + y).take(x.len() as int) =~= x);
    assert(b.subrange(pos + x.len(), pos + x.len() + y.len()) =~= xy.skip(x.len() as int));
    assert((x + y).skip(x.len() as int) =~= y);
}

proof fn number_reads_back(b: Seq<u8>, pos: int, n: nat, k: nat)
    requires
        n < byte_range(k),
        stands(b, pos, le_bytes(n, k)),
    ensures
        number_at(b, pos, k as int) == Ok::<(nat, int), FormatError>((n, pos + k)),
{
    le_reads_back(n, k);
}

proof fn text_reads_back(b: Seq<u8>, pos: int, s: Seq<char>)
    requires
        text_fits(s),
        stands(b, pos, framed(encode_utf8(s))),
    ensures
        text_at(b, pos) == Ok::<(Seq<char>, int), FormatError>(
            (s, pos + framed(encode_utf8(s)).len()),
        ),
{
    let e = encode_utf8(s);
    let n = e.len();
    byte_ranges();
    le_bytes_len(n, 4);
    halves_stand(b, pos, le_bytes(n, 4), e);
    number_reads_back(b, pos, n, 4);
    encode_utf8_valid_utf8(s);
    encode_utf8_decode_utf8(s);
}

proof fn tail_reads_back(b: Seq<u8>, pos: int, count: u32, decayed: u64, last: u64)
    requires
        stands(b, pos, tail_bytes(count, decayed, last)),
    ensures
        tail_at(b, pos) == Ok::<((u32, u64, u64), int), FormatError>(
            ((count, decayed, last), pos + tail_bytes(count, decayed, last).len()),
        ),
{
    byte_ranges();
    let x = le_bytes(count as nat, 4);
    let y = le_bytes(decayed as nat, 8);
    let z = le_bytes(last as nat, 8);
    le_bytes_len(count as nat, 4);
    le_bytes_len(decayed as nat, 8);
    le_bytes_len(last as nat, 8);
    halves_stand(b, pos, x + y, z);
    halves_stand(b, pos, x, y);
    number_reads_back(b, pos, count as nat, 4);
    number_reads_back(b, pos + 4, decayed as nat, 8);
    number_reads_back(b, pos + 12, last as nat, 8);
}

proof fn record_reads_back(b: Seq<u8>, pos: int, r: Kept)
    requires
        text_fits(r.input),
        text_fits(r.text),
        stands(b, pos, record_bytes(r)),
    ensures
        record_at(b, pos) == Ok::<(Kept, int), FormatError>((r, pos + record_bytes(r).len())),
{
    let x = framed(encode_utf8(r.input));
    let y = framed(encode_utf8(r.text));
    let z = tail_bytes(r.count, r.decayed_milli, r.last_used);
    halves_stand(b, pos, x + y, z);
    halves_stand(b, pos, x, y);
    text_reads_back(b, pos, r.input);
    text_reads_back(b, pos + x.len(), r.text);
    tail_reads_back(b, pos + (x + y).len(), r.count, r.decayed_milli, r.last_used);
}

proof fn pred_reads_back(b: Seq<u8>, pos: int, r: Followed)
    requires
        text_fits(r.ctx1),
        text_fits(r.ctx2),
        text_fits(r.text),
        stands(b, pos, pred_bytes(r)),
    ensures
        pred_at(b, pos) == Ok::<(Followed, int), FormatError>((r, pos + pred_bytes(r).len())),
{
    let w = framed(encode_utf8(r.ctx1));
    let x = framed(encode_utf8(r.ctx2));
    let y = framed(encode_utf8(r.text));
    let z = tail_bytes(r.count, r.decayed_milli, r.last_used);
    halves_stand(b, pos, w + x + y, z);
    halves_stand(b, pos, w + x, y);
    halves_stand(b, pos, w, x);
    text_reads_back(b, pos, r.ctx1);
    text_reads_back(b, pos + w.len(), r.ctx2);
    text_reads_back(b, pos + (w + x).len(), r.text);
    tail_reads_back(b, pos + (w + x + y).len(), r.count, r.decayed_milli, r.last_used);
}

proof fn records_split(rs: Seq<Kept>)
    requires
        rs.len() > 0,
    ensures
        records_bytes(rs) == record_bytes(rs[0]) + records_bytes(rs.skip(1)),
    decreases rs.len(),
{
    let head = rs.drop_last();
    if head.len() == 0 {
        assert(rs.skip(1) =~= seq![]);
        assert(head =~= seq![]);
        assert(records_bytes(rs) =~= record_bytes(rs[0]) + records_bytes(rs.skip(1)));
    } else {
        records_split(head);
        assert(rs.skip(1).drop_last() =~= head.skip(1));
        assert(rs.skip(1).last() == rs.last());
        assert(records_bytes(rs) =~= record_bytes(rs[0]) + records_bytes(rs.skip(1)));
    }
}

proof fn preds_split(rs: Seq<Followed>)
    requires
        rs.len() > 0,
    ensures
        preds_bytes(rs) == pred_bytes(rs[0]) + preds_bytes(rs.skip(1)),
    decreases rs.len(),
{
    let head = rs.drop_last();
    if head.len() == 0 {
        assert(rs.skip(1) =~= seq![]);
        assert(head =~= seq![]);
        assert(preds_bytes(rs) =~= pred_bytes(rs[0]) + preds_bytes(rs.skip(1)));
    } else {
        preds_split(head);
        assert(rs.skip(1).drop_last() =~= head.skip(1));
        assert(rs.skip(1).last() == rs.last());
        assert(preds_bytes(rs) =~= pred_bytes(rs[0]) + preds_bytes(rs.skip(1)));
    }
}

#[verifier::rlimit(30)]
proof fn records_read_back(b: Seq<u8>, pos: int, rs: Seq<Kept>)
    requires
        stands(b, pos, records_bytes(rs)),
        forall|i: int|
            0 <= i < rs.len() ==> text_fits((#[trigger] rs[i]).input) && text_fits(rs[i].text),
    ensures
        records_at(b, pos, rs.len()) == Ok::<(Seq<Kept>, int), FormatError>(
            (rs, pos + records_bytes(rs).len()),
        ),
    decreases rs.len(),
{
    if rs.len() == 0 {
        assert(rs =~= seq![]);
    } else {
        let rest = rs.skip(1);
        let x = record_bytes(rs[0]);
        records_split(rs);
        halves_stand(b, pos, x, records_bytes(rest));
        record_reads_back(b, pos, rs[0]);
        assert forall|i: int| 0 <= i < rest.len() implies text_fits((#[trigger] rest[i]).input)
            && text_fits(rest[i].text) by {
            assert(rest[i] == rs[i + 1]);
        }
        records_read_back(b, pos + x.len(), rest);
        assert(seq![rs[0]] + rest =~= rs);
    }
}

#[verifier::rlimit(30)]
proof fn preds_read_back(b: Seq<u8>, pos: int, rs: Seq<Followed>)
    requires
        stands(b, pos, preds_bytes(rs)),
        forall|i: int|
            0 <= i < rs.len() ==> text_fits((#[trigger] rs[i]).ctx1) && text_fits(rs[i].ctx2)
                && text_fits(rs[i].text),
    ensures
        preds_at(b, pos, rs.len()) == Ok::<(Seq<Followed>, int), FormatError>(
            (rs, pos + preds_bytes(rs).len()),
        ),
    decreases rs.len(),
{
    if rs.len() == 0 {
        assert(rs =~= seq![]);
    } else {
        let rest = rs.skip(1);
        let x = pred_bytes(rs[0]);
        preds_split(rs);
        halves_stand(b, pos, x, preds_bytes(rest));
        pred_reads_back(b, pos, rs[0]);
        assert forall|i: int| 0 <= i < rest.len() implies text_fits((#[trigger] rest[i]).ctx1)
            && text_fits(rest[i].ctx2) && text_fits(rest[i].text) by {
            assert(rest[i] == rs[i + 1]);
        }
        preds_read_back(b, pos + x.len(), rest);
        assert(seq![rs[0]] + rest =~= rs);
    }
}

/// Whether the parts of a body stand one behind the other.
spec fn laid_out(body: Seq<u8>, rs: Seq<Kept>, ps: Seq<Followed>) -> bool {
    let n = records_bytes(rs).len() as int;
    &&& stands(body, 0, magic_bytes())
    &&& stands(body, 8, le_bytes(VERSION as nat, 4))
    &&& stands(body, 12, le_bytes(rs.len(), 4))
    &&& stands(body, 16, records_bytes(rs))
    &&& stands(body, 16 + n, le_bytes(ps.len(), 4))
    &&& stands(body, 20 + n, preds_bytes(ps))
    &&& body.len() == 20 + n + preds_bytes(ps).len()
}

proof fn pieces_stand(rs: Seq<Kept>, ps: Seq<Followed>)
    requires
        tables_fit(rs, ps),
    ensures
        laid_out(body_bytes(rs, ps), rs, ps),
{
    let body = body_bytes(rs, ps);
    let m = magic_bytes();
    let v = le_bytes(VERSION as nat, 4);
    let n = le_bytes(rs.len(), 4);
    let x = records_bytes(rs);
    let k = le_bytes(ps.len(), 4);
    let y = preds_bytes(ps);
    le_bytes_len(VERSION as nat, 4);
    le_bytes_len(rs.len(), 4);
    le_bytes_len(ps.len(), 4);
    assert(stands(body, 0, body)) by {
        assert(body.subrange(0, body.len() as int) =~= body);
    }
    halves_stand(body, 0, m + v + n + x + k, y);
    halves_stand(body, 0, m + v + n + x, k);
    halves_stand(body, 0, m + v + n, x);
    halves_stand(body, 0, m + v, n);
    halves_stand(body, 0, m, v);
}

proof fn body_reads_back(body: Seq<u8>, rs: Seq<Kept>, ps: Seq<Followed>)
    requires
        tables_fit(rs, ps),
        laid_out(body, rs, ps),
    ensures
        body_read(body) == Ok::<(Seq<Kept>, Seq<Followed>), FormatError>((rs, ps)),
{
    let n = records_bytes(rs).len() as int;
    byte_ranges();
    number_reads_back(body, 8, VERSION as nat, 4);
    number_reads_back(body, 12, rs.len(), 4);
    records_read_back(body, 16, rs);
    number_reads_back(body, 16 + n, ps.len(), 4);
    preds_read_back(body, 20 + n, ps);
}

proof fn sealed_reads_as_its_body(body: Seq<u8>)
    requires
        stands(body, 0, magic_bytes()),
    ensures
        file_read(sealed(body)) == body_read(body),
{
    let file = sealed(body);
    let sum = le_bytes(checksum(body) as nat, 8);
    byte_ranges();
    le_reads_back(checksum(body) as nat, 8);
    assert(file.len() == body.len() + 8);
    assert(file.take(file.len() - 8) =~= body);
    assert(file.skip(file.len() - 8) =~= sum);
    assert(file.take(8) =~= body.subrange(0, 8));
}

/// Reading what was written gives back both tables.
pub proof fn written_files_read_back(rs: Seq<Kept>, ps: Seq<Followed>)
    requires
        tables_fit(rs, ps),
    ensures
        file_read(sealed(body_bytes(rs, ps))) == Ok::<(Seq<Kept>, Seq<Followed>), FormatError>(
            (rs, ps),
        ),
{
    let body = body_bytes(rs, ps);
    pieces_stand(rs, ps);
    body_reads_back(body, rs, ps);
    sealed_reads_as_its_body(body);
}

proof fn prime_multiples_differ(x: u64, y: u64)
    requires
        (x * 0x0000_0100_0000_01b3) % word() == (y * 0x0000_0100_0000_01b3) % word(),
    ensures
        x == y,
{
    let p: int = 0x0000_0100_0000_01b3;
    let q: int = 0xce96_5057_aff6_957b;
    let w = word();
    assert((p * q) % w == 1) by (nonlinear_arith)
        requires
            p == 0x0000_0100_0000_01b3,
            q == 0xce96_5057_aff6_957b,
            w == 0x1_0000_0000_0000_0000,
    ;
    prime_undone(x as int, p, q, w);
    prime_undone(y as int, p, q, w);
}

proof fn prime_undone(x: int, p: int, q: int, w: int)
    requires
        w > 1,
        0 <= x < w,
        (p * q) % w == 1,
    ensures
        (((x * p) % w) * q) % w == x,
{
    lemma_mul_is_associative(x, p, q);
    lemma_small_mod(x as nat, w as nat);
    lemma_mul_mod_noop_left(x * p, q, w);
    lemma_mul_mod_noop_right(x, p * q, w);
}

/// A checksum changes with every single byte under it.
pub proof fn changed_bytes_change_the_sum(bytes: Seq<u8>, i: int, b: u8)
    requires
        0 <= i < bytes.len(),
        b != bytes[i],
    ensures
        checksum(bytes.update(i, b)) != checksum(bytes),
    decreases bytes.len(),
{
    let other = bytes.update(i, b);
    let h = checksum(bytes.drop_last());
    let g = checksum(other.drop_last());
    let c = bytes.last() as u64;
    let d = other.last() as u64;
    if i < bytes.len() - 1 {
        changed_bytes_change_the_sum(bytes.drop_last(), i, b);
        assert(other.drop_last() =~= bytes.drop_last().update(i, b));
        assert(h ^ c == g ^ c ==> h == g) by (bit_vector);
    } else {
        assert(other.drop_last() =~= bytes.drop_last());
        assert(h ^ c == h ^ d ==> c == d) by (bit_vector);
    }
    if checksum(other) == checksum(bytes) {
        assert(((h ^ c) * 0x0000_0100_0000_01b3) % word() == ((g ^ d) * 0x0000_0100_0000_01b3)
            % word());
        prime_multiples_differ(h ^ c, g ^ d);
    }
}

proof fn le_writes_back(s: Seq<u8>)
    ensures
        le_bytes(le_value(s), s.len()) == s,
    decreases s.len(),
{
    if s.len() > 0 {
        let rest = s.skip(1);
        le_writes_back(rest);
        assert(le_value(s) % 256 == s[0]);
        assert(le_value(s) / 256 == le_value(rest));
        assert(seq![s[0]] + rest =~= s);
    } else {
        assert(s =~= seq![]);
    }
}

/// One changed byte of a good file is found, wherever it stands: in the first
/// bytes by what they must be, elsewhere by the checksum.
#[verifier::rlimit(30)]
pub proof fn flipped_bytes_are_found(file: Seq<u8>, i: int, b: u8)
    requires
        file_read(file) is Ok,
        0 <= i < file.len(),
        b != file[i],
    ensures
        i < 8 ==> file_read(file.update(i, b)) == Err::<(Seq<Kept>, Seq<Followed>), FormatError>(
            FormatError::NotMemoryFile,
        ),
        i >= 8 ==> (file_read(file.update(i, b)) matches Err(FormatError::ChecksumMismatch { .. })),
{
    let other = file.update(i, b);
    let n = file.len() - 8;
    let body = file.take(n);
    let sum = file.skip(n);
    good_files_agree(file);
    if i < 8 {
        assert(other.take(8)[i] != file.take(8)[i]);
    } else {
        assert(other.take(8) =~= file.take(8));
        if i < n {
            assert(other.take(n) =~= body.update(i, b));
            assert(other.skip(n) =~= sum);
            changed_bytes_change_the_sum(body, i, b);
        } else {
            assert(other.take(n) =~= body);
            le_writes_back(sum);
            le_writes_back(other.skip(n));
            assert(other.skip(n)[i - n] != sum[i - n]);
        }
        wrong_sums_are_refused(other);
    }
}

proof fn good_files_agree(file: Seq<u8>)
    requires
        file_read(file) is Ok,
    ensures
        file.len() >= 16,
        file.take(8) == magic_bytes(),
        le_value(file.skip(file.len() - 8)) == checksum(file.take(file.len() - 8)),
{
    assert(body_read(file.take(file.len() - 8)) is Ok);
}

proof fn wrong_sums_are_refused(file: Seq<u8>)
    requires
        file.len() >= 8,
        file.take(8) == magic_bytes(),
        le_value(file.skip(file.len() - 8)) != checksum(file.take(file.len() - 8)),
    ensures
        file_read(file) matches Err(FormatError::ChecksumMismatch { .. }),
{
}

proof fn halves_join(b: Seq<u8>, pos: int, x: Seq<u8>, y: Seq<u8>)
    requires
        stands(b, pos, x),
        stands(b, pos + x.len(), y),
    ensures
        stands(b, pos, x + y),
{
    assert(b.subrange(pos, pos + (x + y).len()) =~= b.subrange(pos, pos + x.len()) + b.subrange(
        pos + x.len(),
        pos + x.len() + y.len(),
    ));
}

proof fn read_number_stands(b: Seq<u8>, pos: int, k: nat)
    requires
        0 <= pos,
        number_at(b, pos, k as int) is Ok,
    ensures
        ({
            let (n, p) = number_at(b, pos, k as int)->Ok_0;
            &&& p == pos + k
            &&& n < byte_range(k)
            &&& stands(b, pos, le_bytes(n, k))
            &&& le_bytes(n, k).len() == k
        }),
{
    let s = b.subrange(pos, pos + k);
    le_writes_back(s);
    le_value_bound(s);
}

proof fn read_text_stands(b: Seq<u8>, pos: int)
    requires
        0 <= pos,
        text_at(b, pos) is Ok,
    ensures
        ({
            let (s, p) = text_at(b, pos)->Ok_0;
            &&& text_fits(s)
            &&& stands(b, pos, framed(encode_utf8(s)))
            &&& p == pos + framed(encode_utf8(s)).len()
        }),
{
    let (n, p) = number_at(b, pos, 4)->Ok_0;
    let e = b.subrange(p, p + n);
    byte_ranges();
    read_number_stands(b, pos, 4);
    decode_utf8_encode_utf8(e);
    halves_join(b, pos, le_bytes(n, 4), e);
}

proof fn read_tail_stands(b: Seq<u8>, pos: int)
    requires
        0 <= pos,
        tail_at(b, pos) is Ok,
    ensures
        ({
            let ((count, decayed, last), p) = tail_at(b, pos)->Ok_0;
            &&& stands(b, pos, tail_bytes(count, decayed, last))
            &&& p == pos + tail_bytes(count, decayed, last).len()
        }),
{
    byte_ranges();
    read_number_stands(b, pos, 4);
    read_number_stands(b, pos + 4, 8);
    read_number_stands(b, pos + 12, 8);
    let c = le_bytes(number_at(b, pos, 4)->Ok_0.0, 4);
    let d = le_bytes(number_at(b, pos + 4, 8)->Ok_0.0, 8);
    let l = le_bytes(number_at(b, pos + 12, 8)->Ok_0.0, 8);
    halves_join(b, pos, c, d);
    halves_join(b, pos, c + d, l);
}

proof fn read_record_stands(b: Seq<u8>, pos: int)
    requires
        0 <= pos,
        record_at(b, pos) is Ok,
    ensures
        ({
            let (r, p) = record_at(b, pos)->Ok_0;
            &&& text_fits(r.input)
            &&& text_fits(r.text)
            &&& stands(b, pos, record_bytes(r))
            &&& p == pos + record_bytes(r).len()
        }),
{
    let (r, _) = record_at(b, pos)->Ok_0;
    let x = framed(encode_utf8(r.input));
    let y = framed(encode_utf8(r.text));
    let z = tail_bytes(r.count, r.decayed_milli, r.last_used);
    read_text_stands(b, pos);
    read_text_stands(b, pos + x.len());
    read_tail_stands(b, pos + x.len() + y.len());
    halves_join(b, pos, x, y);
    halves_join(b, pos, x + y, z);
}

proof fn read_pred_stands(b: Seq<u8>, pos: int)
    requires
        0 <= pos,
        pred_at(b, pos) is Ok,
    ensures
        ({
            let (r, p) = pred_at(b, pos)->Ok_0;
            &&& text_fits(r.ctx1)
            &&& text_fits(r.ctx2)
            &&& text_fits(r.text)
            &&& stands(b, pos, pred_bytes(r))
            &&& p == pos + pred_bytes(r).len()
        }),
{
    let (r, _) = pred_at(b, pos)->Ok_0;
    let w = framed(encode_utf8(r.ctx1));
    let x = framed(encode_utf8(r.ctx2));
    let y = framed(encode_utf8(r.text));
    let z = tail_bytes(r.count, r.decayed_milli, r.last_used);
    read_text_stands(b, pos);
    read_text_stands(b, pos + w.len());
    read_text_stands(b, pos + w.len() + x.len());
    read_tail_stands(b, pos + w.len() + x.len() + y.len());
    halves_join(b, pos, w, x);
    halves_join(b, pos, w + x, y);
    halves_join(b, pos, w + x + y, z);
}

proof fn read_records_stand(b: Seq<u8>, pos: int, n: nat)
    requires
        0 <= pos <= b.len(),
        records_at(b, pos, n) is Ok,
    ensures
        ({
            let (rs, p) = records_at(b, pos, n)->Ok_0;
            &&& rs.len() == n
            &&& forall|i: int|
                0 <= i < rs.len() ==> text_fits((#[trigger] rs[i]).input) && text_fits(rs[i].text)
            &&& stands(b, pos, records_bytes(rs))
            &&& p == pos + records_bytes(rs).len()
        }),
    decreases n,
{
    let (rs, _) = records_at(b, pos, n)->Ok_0;
    if n == 0 {
        assert(b.subrange(pos, pos) =~= seq![]);
    } else {
        let x = record_bytes(rs[0]);
        read_record_stands(b, pos);
        assert(rs[0] == record_at(b, pos)->Ok_0.0);
        read_records_stand(b, pos + x.len(), (n - 1) as nat);
        let rest = records_at(b, pos + x.len(), (n - 1) as nat)->Ok_0.0;
        assert(rs.skip(1) =~= rest);
        records_split(rs);
        halves_join(b, pos, x, records_bytes(rest));
        assert forall|i: int| 0 <= i < rs.len() implies text_fits((#[trigger] rs[i]).input)
            && text_fits(rs[i].text) by {
            if i > 0 {
                assert(rs[i] == rest[i - 1]);
            }
        }
    }
}

proof fn read_preds_stand(b: Seq<u8>, pos: int, n: nat)
    requires
        0 <= pos <= b.len(),
        preds_at(b, pos, n) is Ok,
    ensures
        ({
            let (rs, p) = preds_at(b, pos, n)->Ok_0;
            &&& rs.len() == n
            &&& forall|i: int|
                0 <= i < rs.len() ==> text_fits((#[trigger] rs[i]).ctx1) && text_fits(rs[i].ctx2)
                    && text_fits(rs[i].text)
            &&& stands(b, pos, preds_bytes(rs))
            &&& p == pos + preds_bytes(rs).len()
        }),
    decreases n,
{
    let (rs, _) = preds_at(b, pos, n)->Ok_0;
    if n == 0 {
        assert(b.subrange(pos, pos) =~= seq![]);
    } else {
        let x = pred_bytes(rs[0]);
        read_pred_stands(b, pos);
        assert(rs[0] == pred_at(b, pos)->Ok_0.0);
        read_preds_stand(b, pos + x.len(), (n - 1) as nat);
        let rest = preds_at(b, pos + x.len(), (n - 1) as nat)->Ok_0.0;
        assert(rs.skip(1) =~= rest);
        preds_split(rs);
        halves_join(b, pos, x, preds_bytes(rest));
        assert forall|i: int| 0 <= i < rs.len() implies text_fits((#[trigger] rs[i]).ctx1)
            && text_fits(rs[i].ctx2) && text_fits(rs[i].text) by {
            if i > 0 {
                assert(rs[i] == rest[i - 1]);
            }
        }
    }
}

proof fn read_body_stands(body: Seq<u8>)
    requires
        stands(body, 0, magic_bytes()),
        body_read(body) is Ok,
    ensures
        ({
            let (rs, ps) = body_read(body)->Ok_0;
            &&& tables_fit(rs, ps)
            &&& laid_out(body, rs, ps)
        }),
{
    let (rs, ps) = body_read(body)->Ok_0;
    byte_ranges();
    read_number_stands(body, 8, 4);
    read_number_stands(body, 12, 4);
    let n = number_at(body, 12, 4)->Ok_0.0;
    read_records_stand(body, 16, n);
    let p = 16 + records_bytes(rs).len() as int;
    read_number_stands(body, p, 4);
    let m = number_at(body, p, 4)->Ok_0.0;
    read_preds_stand(body, p + 4, m);
}

proof fn laid_out_is_whole(body: Seq<u8>, rs: Seq<Kept>, ps: Seq<Followed>)
    requires
        tables_fit(rs, ps),
        laid_out(body, rs, ps),
    ensures
        body == body_bytes(rs, ps),
{
    let m = magic_bytes();
    let v = le_bytes(VERSION as nat, 4);
    let n = le_bytes(rs.len(), 4);
    let x = records_bytes(rs);
    let k = le_bytes(ps.len(), 4);
    let y = preds_bytes(ps);
    le_bytes_len(VERSION as nat, 4);
    le_bytes_len(rs.len(), 4);
    le_bytes_len(ps.len(), 4);
    halves_join(body, 0, m, v);
    halves_join(body, 0, m + v, n);
    halves_join(body, 0, m + v + n, x);
    halves_join(body, 0, m + v + n + x, k);
    halves_join(body, 0, m + v + n + x + k, y);
    assert(body.subrange(0, body.len() as int) =~= body);
}

proof fn good_files_are_sealed(file: Seq<u8>)
    requires
        file_read(file) is Ok,
    ensures
        file.len() >= 16,
        ({
            let body = file.take(file.len() - 8);
            &&& stands(body, 0, magic_bytes())
            &&& body_read(body) == file_read(file)
            &&& file == sealed(body)
        }),
{
    let body = file.take(file.len() - 8);
    let sum = file.skip(file.len() - 8);
    assert(body_read(body) == file_read(file));
    assert(body.len() >= 8);
    assert(body.subrange(0, 8) =~= file.take(8));
    le_writes_back(sum);
    assert(file =~= body + sum);
}

/// A file that is read holds nothing but its tables: written again, they give
/// the same bytes.
pub proof fn read_files_write_back(file: Seq<u8>)
    requires
        file_read(file) is Ok,
    ensures
        ({
            let (rs, ps) = file_read(file)->Ok_0;
            tables_fit(rs, ps) && file == sealed(body_bytes(rs, ps))
        }),
{
    let body = file.take(file.len() - 8);
    let (rs, ps) = file_read(file)->Ok_0;
    good_files_are_sealed(file);
    read_body_stands(body);
    laid_out_is_whole(body, rs, ps);
}

/// Whether bytes are the beginning of others.
spec fn begins(a: Seq<u8>, b: Seq<u8>) -> bool {
    a.len() <= b.len() && a == b.take(a.len() as int)
}

/// Whether reading a beginning gives the same as reading the whole, or ends too
/// early.
spec fn same_or_short<T>(
    short: Result<(T, int), FormatError>,
    whole: Result<(T, int), FormatError>,
) -> bool {
    short == whole || short == Err::<(T, int), FormatError>(FormatError::Truncated)
}

proof fn cut_number(a: Seq<u8>, b: Seq<u8>, pos: int, k: int)
    requires
        begins(a, b),
        0 <= pos,
        0 <= k,
    ensures
        same_or_short(number_at(a, pos, k), number_at(b, pos, k)),
{
    if pos + k <= a.len() {
        assert(a.subrange(pos, pos + k) =~= b.subrange(pos, pos + k));
    }
}

proof fn cut_text(a: Seq<u8>, b: Seq<u8>, pos: int)
    requires
        begins(a, b),
        0 <= pos,
    ensures
        same_or_short(text_at(a, pos), text_at(b, pos)),
{
    cut_number(a, b, pos, 4);
    if number_at(a, pos, 4) is Ok {
        let (n, p) = number_at(a, pos, 4)->Ok_0;
        if p + n <= a.len() {
            assert(a.subrange(p, p + n) =~= b.subrange(p, p + n));
        }
    }
}

proof fn cut_tail(a: Seq<u8>, b: Seq<u8>, pos: int)
    requires
        begins(a, b),
        0 <= pos,
    ensures
        same_or_short(tail_at(a, pos), tail_at(b, pos)),
{
    cut_number(a, b, pos, 4);
    cut_number(a, b, pos + 4, 8);
    cut_number(a, b, pos + 12, 8);
}

proof fn cut_record(a: Seq<u8>, b: Seq<u8>, pos: int)
    requires
        begins(a, b),
        0 <= pos,
    ensures
        same_or_short(record_at(a, pos), record_at(b, pos)),
        record_at(a, pos) matches Ok((_, p)) ==> pos <= p,
{
    cut_text(a, b, pos);
    if let Ok((_, p)) = text_at(a, pos) {
        cut_text(a, b, p);
        if let Ok((_, q)) = text_at(a, p) {
            cut_tail(a, b, q);
        }
    }
}

proof fn cut_pred(a: Seq<u8>, b: Seq<u8>, pos: int)
    requires
        begins(a, b),
        0 <= pos,
    ensures
        same_or_short(pred_at(a, pos), pred_at(b, pos)),
        pred_at(a, pos) matches Ok((_, p)) ==> pos <= p,
{
    cut_text(a, b, pos);
    if let Ok((_, p)) = text_at(a, pos) {
        cut_text(a, b, p);
        if let Ok((_, q)) = text_at(a, p) {
            cut_text(a, b, q);
            if let Ok((_, r)) = text_at(a, q) {
                cut_tail(a, b, r);
            }
        }
    }
}

proof fn cut_records(a: Seq<u8>, b: Seq<u8>, pos: int, n: nat)
    requires
        begins(a, b),
        0 <= pos,
    ensures
        same_or_short(records_at(a, pos, n), records_at(b, pos, n)),
        records_at(a, pos, n) matches Ok((_, p)) ==> pos <= p,
    decreases n,
{
    if n > 0 {
        cut_record(a, b, pos);
        if let Ok((_, p)) = record_at(a, pos) {
            cut_records(a, b, p, (n - 1) as nat);
        }
    }
}

proof fn cut_preds(a: Seq<u8>, b: Seq<u8>, pos: int, n: nat)
    requires
        begins(a, b),
        0 <= pos,
    ensures
        same_or_short(preds_at(a, pos, n), preds_at(b, pos, n)),
    decreases n,
{
    if n > 0 {
        cut_pred(a, b, pos);
        if let Ok((_, p)) = pred_at(a, pos) {
            cut_preds(a, b, p, (n - 1) as nat);
        }
    }
}

proof fn cut_body(a: Seq<u8>, b: Seq<u8>)
    requires
        begins(a, b),
        a.len() < b.len(),
        body_read(b) is Ok,
    ensures
        body_read(a) == Err::<(Seq<Kept>, Seq<Followed>), FormatError>(FormatError::Truncated),
{
    cut_number(a, b, 8, 4);
    cut_number(a, b, 12, 4);
    if let Ok((n, _)) = number_at(a, 12, 4) {
        cut_records(a, b, 16, n);
        if let Ok((_, p)) = records_at(a, 16, n) {
            cut_number(a, b, p, 4);
            if let Ok((m, q)) = number_at(a, p, 4) {
                cut_preds(a, b, q, m);
            }
        }
    }
}

/// A good file that was cut short is refused, wherever it was cut: by its
/// checksum, unless the cut leaves too little for one, or one that happens to
/// agree. It is found to end too early then.
pub proof fn cut_files_are_refused(file: Seq<u8>, n: int)
    requires
        file_read(file) is Ok,
        0 <= n < file.len(),
    ensures
        ({
            let part = file.take(n);
            let sum = checksum(part.take(n - 8));
            let found = le_value(part.skip(n - 8));
            file_read(part) == Err::<(Seq<Kept>, Seq<Followed>), FormatError>(
                if n >= 8 && found != sum {
                    FormatError::ChecksumMismatch { expected: sum, found: found as u64 }
                } else {
                    FormatError::Truncated
                },
            )
        }),
{
    let part = file.take(n);
    if n >= 8 {
        let whole = file.take(file.len() - 8);
        let body = part.take(n - 8);
        assert(part.take(8) =~= file.take(8));
        assert(body =~= whole.take(n - 8));
        good_files_are_sealed(file);
        cut_body(body, whole);
    }
}

/// A file that was written and cut short is refused, wherever it was cut.
pub proof fn cut_written_files_are_refused(rs: Seq<Kept>, ps: Seq<Followed>, n: int)
    requires
        tables_fit(rs, ps),
        0 <= n < sealed(body_bytes(rs, ps)).len(),
    ensures
        file_read(sealed(body_bytes(rs, ps)).take(n)) is Err,
{
    written_files_read_back(rs, ps);
    cut_files_are_refused(sealed(body_bytes(rs, ps)), n);
}

/// The checksum goes on byte by byte: the byte is mixed in, and the sum is
/// multiplied with the prime of the FNV family, in sixty-four bits.
pub proof fn checksums_go_on(bytes: Seq<u8>, b: u8)
    ensures
        checksum(seq![]) == 14_695_981_039_346_656_037,
        checksum(bytes.push(b)) as int == ((checksum(bytes) ^ (b as u64)) * 1_099_511_628_211)
            % 0x1_0000_0000_0000_0000,
{
    assert(bytes.push(b).drop_last() =~= bytes);
}

/// Numbers are written with their lowest byte first: the byte at a place counts
/// that power of 256.
pub proof fn numbers_are_written_from_below(n: nat, k: nat)
    ensures
        le_bytes(n, k).len() == k,
        k > 0 ==> le_bytes(n, k)[0] == n % 256 && le_bytes(n, k).skip(1) == le_bytes(
            n / 256,
            (k - 1) as nat,
        ),
{
    le_bytes_len(n, k);
    if k > 0 {
        assert(le_bytes(n, k).skip(1) =~= le_bytes(n / 256, (k - 1) as nat));
    }
}

/// Every file starts with the eight letters of its kind and its version, and
/// ends with the checksum of all that stands before that.
pub proof fn files_have_a_head_and_a_seal(rs: Seq<Kept>, ps: Seq<Followed>)
    ensures
        ({
            let body = body_bytes(rs, ps);
            let file = sealed(body);
            let letters = "STELEMEM"@;
            &&& letters.len() == 8 && forall|i: int|
                0 <= i < 8 ==> file[i] as int == #[trigger] letters[i] as int
            &&& file.subrange(8, 12) == seq![2u8, 0u8, 0u8, 0u8]
            &&& file.len() == body.len() + 8
            &&& file.take(body.len() as int) == body
            &&& le_value(file.skip(body.len() as int)) == checksum(body)
        }),
{
    let body = body_bytes(rs, ps);
    let file = sealed(body);
    le_bytes_len(checksum(body) as nat, 8);
    byte_ranges();
    le_reads_back(checksum(body) as nat, 8);
    assert(file.take(body.len() as int) =~= body);
    assert(file.skip(body.len() as int) =~= le_bytes(checksum(body) as nat, 8));
    le_bytes_len(2, 4);
    le_bytes_len(written_len(rs.len()), 4);
    le_bytes_len(written_len(ps.len()), 4);
    assert(file.take(8) =~= magic_bytes());
    assert(file.subrange(8, 12) =~= le_bytes(2, 4));
    version_bytes();
    head_letters();
    assert forall|i: int| 0 <= i < 8 implies file[i] as int == #[trigger] "STELEMEM"@[i] as int by {
        assert(file[i] == file.take(8)[i]);
    }
}

proof fn version_bytes()
    ensures
        le_bytes(2, 4) == seq![2u8, 0u8, 0u8, 0u8],
{
    reveal_with_fuel(le_bytes, 5);
    assert(le_bytes(2, 4) =~= seq![2u8, 0u8, 0u8, 0u8]);
}

proof fn head_letters()
    ensures
        "STELEMEM"@.len() == 8,
        forall|i: int| 0 <= i < 8 ==> magic_bytes()[i] as int == #[trigger] "STELEMEM"@[i] as int,
{
    reveal_strlit("STELEMEM");
}

/// Texts are written with their length before them, then the counters: how often
/// a word was committed, its frequency and when it was last used.
pub proof fn records_are_written_field_by_field(r: Kept)
    requires
        encode_utf8(r.input).len() <= u32::MAX,
        encode_utf8(r.text).len() <= u32::MAX,
    ensures
        ({
            let b = record_bytes(r);
            let n = encode_utf8(r.input).len() as int;
            let m = encode_utf8(r.text).len() as int;
            &&& b.len() == n + m + 28
            &&& le_value(b.subrange(0, 4)) == n
            &&& b.subrange(4, 4 + n) == encode_utf8(r.input)
            &&& le_value(b.subrange(4 + n, 8 + n)) == m
            &&& b.subrange(8 + n, 8 + n + m) == encode_utf8(r.text)
            &&& le_value(b.subrange(8 + n + m, 12 + n + m)) == r.count
            &&& le_value(b.subrange(12 + n + m, 20 + n + m)) == r.decayed_milli
            &&& le_value(b.subrange(20 + n + m, 28 + n + m)) == r.last_used
        }),
{
    let b = record_bytes(r);
    let n = encode_utf8(r.input).len() as int;
    let m = encode_utf8(r.text).len() as int;
    byte_ranges();
    le_bytes_len(n as nat, 4);
    le_bytes_len(m as nat, 4);
    le_bytes_len(r.count as nat, 4);
    le_bytes_len(r.decayed_milli as nat, 8);
    le_bytes_len(r.last_used as nat, 8);
    le_reads_back(n as nat, 4);
    le_reads_back(m as nat, 4);
    le_reads_back(r.count as nat, 4);
    le_reads_back(r.decayed_milli as nat, 8);
    le_reads_back(r.last_used as nat, 8);
    assert(b.subrange(0, 4) =~= le_bytes(n as nat, 4));
    assert(b.subrange(4, 4 + n) =~= encode_utf8(r.input));
    assert(b.subrange(4 + n, 8 + n) =~= le_bytes(m as nat, 4));
    assert(b.subrange(8 + n, 8 + n + m) =~= encode_utf8(r.text));
    assert(b.subrange(8 + n + m, 12 + n + m) =~= le_bytes(r.count as nat, 4));
    assert(b.subrange(12 + n + m, 20 + n + m) =~= le_bytes(r.decayed_milli as nat, 8));
    assert(b.subrange(20 + n + m, 28 + n + m) =~= le_bytes(r.last_used as nat, 8));
}

} // verus!
