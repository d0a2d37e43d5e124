//! Binary persistence: a self-describing encoding of a table's full
//! observable state — name, key counter, column registry, shard tag and
//! keyed, timestamped rows — and its decoder. The format is this crate's
//! own; its one obligation, proved in [`lemma_codec_round_trip`], is that
//! decoding an encoding yields the table back exactly.
//!
//! Layout: numbers are 8-byte little-endian; a signed number is a sign
//! byte followed by its non-negative offset; a string is its character
//! count followed by one 4-byte Unicode scalar per character; an option is
//! a presence byte followed by the value; lists are a count followed by
//! the items.

use crate::table::{Entry, EntryV, ShardID, TableV};
use vstd::bytes::{spec_u32_to_le_bytes, spec_u64_to_le_bytes};
use vstd::bytes::{spec_u32_from_le_bytes, spec_u64_from_le_bytes};
use vstd::prelude::*;
use vstd::utf8::is_scalar;

verus! {

// ---------------------------------------------------------------- encoding
/// An unsigned number: 8 bytes, little-endian.
pub open spec fn enc_u64(x: u64) -> Seq<u8> {
    spec_u64_to_le_bytes(x)
}

/// A character: its Unicode scalar value, 4 bytes, little-endian.
pub open spec fn enc_u32(x: u32) -> Seq<u8> {
    spec_u32_to_le_bytes(x)
}

/// A machine-sized number, stored as 8 bytes.
pub open spec fn enc_usize(x: usize) -> Seq<u8> {
    enc_u64(x as u64)
}

/// A signed number: sign byte 0 for `t >= 0` with `t` itself, sign byte 1
/// for `t < 0` with the offset `-(t + 1)`, which never overflows.
pub open spec fn enc_i64(t: i64) -> Seq<u8> {
    if t >= 0 {
        seq![0u8] + enc_u64(t as u64)
    } else {
        seq![1u8] + enc_u64((-(t + 1)) as u64)
    }
}

/// A string's characters, one scalar each.
pub open spec fn enc_chars(s: Seq<char>) -> Seq<u8>
    decreases s.len(),
{
    if s.len() == 0 {
        Seq::empty()
    } else {
        enc_u32(s[0] as u32) + enc_chars(s.drop_first())
    }
}

/// A string: character count, then the characters.
pub open spec fn enc_str(s: Seq<char>) -> Seq<u8> {
    enc_u64(s.len() as u64) + enc_chars(s)
}

/// An optional string: presence byte, then the string if present.
pub open spec fn enc_opt_str(o: Option<Seq<char>>) -> Seq<u8> {
    match o {
        None => seq![0u8],
        Some(s) => seq![1u8] + enc_str(s),
    }
}

/// An optional shard tag: presence byte, then id and shard count.
pub open spec fn enc_opt_shard(o: Option<ShardID>) -> Seq<u8> {
    match o {
        None => seq![0u8],
        Some(s) => seq![1u8] + enc_usize(s.id) + enc_usize(s.shards),
    }
}

/// A list of strings, item after item.
pub open spec fn enc_strs_items(ss: Seq<Seq<char>>) -> Seq<u8>
    decreases ss.len(),
{
    if ss.len() == 0 {
        Seq::empty()
    } else {
        enc_str(ss[0]) + enc_strs_items(ss.drop_first())
    }
}

/// A list of strings: count, then the items.
pub open spec fn enc_strs(ss: Seq<Seq<char>>) -> Seq<u8> {
    enc_u64(ss.len() as u64) + enc_strs_items(ss)
}

/// One row: key, timestamp, cells.
pub open spec fn enc_entry(e: EntryV) -> Seq<u8> {
    enc_usize(e.key) + enc_i64(e.timestamp) + enc_strs(e.cells)
}

/// The rows, one after the other.
pub open spec fn enc_entries_items(es: Seq<EntryV>) -> Seq<u8>
    decreases es.len(),
{
    if es.len() == 0 {
        Seq::empty()
    } else {
        enc_entry(es[0]) + enc_entries_items(es.drop_first())
    }
}

/// A whole table: name, key counter, columns, shard tag, row count, rows.
pub open spec fn enc_table(tv: TableV) -> Seq<u8> {
    enc_opt_str(tv.name) + enc_usize(tv.latest) + enc_strs(tv.columns) + enc_opt_shard(tv.shard)
        + enc_u64(tv.entries.len() as u64) + enc_entries_items(tv.entries)
}

/// Whether a string's length fits the count field.
pub open spec fn str_ok(s: Seq<char>) -> bool {
    s.len() <= u64::MAX
}

/// Whether a row's cells fit their count fields.
pub open spec fn row_ok(cells: Seq<Seq<char>>) -> bool {
    cells.len() <= u64::MAX && forall|i: int| 0 <= i < cells.len() ==> str_ok(#[trigger] cells[i])
}

/// Whether every length in the table fits its count field. Every table an
/// executable program can hold is bounded, since a vector's length fits a
/// machine word.
pub open spec fn bounded(tv: TableV) -> bool {
    &&& tv.name matches Some(s) ==> str_ok(s)
    &&& tv.columns.len() <= u64::MAX
    &&& forall|i: int| 0 <= i < tv.columns.len() ==> str_ok(#[trigger] tv.columns[i])
    &&& tv.entries.len() <= u64::MAX
    &&& forall|i: int| 0 <= i < tv.entries.len() ==> row_ok((#[trigger] tv.entries[i]).cells)
}

// ---------------------------------------------------------------- decoding
/// One byte off the front.
pub open spec fn dec_byte(s: Seq<u8>) -> Option<(u8, Seq<u8>)> {
    if s.len() >= 1 {
        Some((s[0], s.drop_first()))
    } else {
        None
    }
}

/// An unsigned number off the front.
pub open spec fn dec_u64(s: Seq<u8>) -> Option<(u64, Seq<u8>)> {
    if s.len() >= 8 {
        Some((spec_u64_from_le_bytes(s.take(8)), s.skip(8)))
    } else {
        None
    }
}

/// A scalar's 4 bytes off the front.
pub open spec fn dec_u32(s: Seq<u8>) -> Option<(u32, Seq<u8>)> {
    if s.len() >= 4 {
        Some((spec_u32_from_le_bytes(s.take(4)), s.skip(4)))
    } else {
        None
    }
}

/// A machine-sized number: an unsigned number that fits.
pub open spec fn dec_usize(s: Seq<u8>) -> Option<(usize, Seq<u8>)> {
    match dec_u64(s) {
        None => None,
        Some((v, r)) => if v <= usize::MAX as u64 {
            Some((v as usize, r))
        } else {
            None
        },
    }
}

/// A signed number: sign byte, then the offset.
pub open spec fn dec_i64(s: Seq<u8>) -> Option<(i64, Seq<u8>)> {
    match dec_byte(s) {
        None => None,
        Some((tag, s1)) => match dec_u64(s1) {
            None => None,
            Some((v, r)) => if v <= i64::MAX as u64 {
                if tag == 0u8 {
                    Some((v as i64, r))
                } else if tag == 1u8 {
                    Some(((-(v as i64) - 1) as i64, r))
                } else {
                    None
                }
            } else {
                None
            },
        },
    }
}

/// `n` characters off the front, each a valid Unicode scalar.
pub open spec fn dec_chars(s: Seq<u8>, n: nat) -> Option<(Seq<char>, Seq<u8>)>
    decreases n,
{
    if n == 0 {
        Some((Seq::empty(), s))
    } else {
        match dec_u32(s) {
            None => None,
            Some((v, s1)) => if is_scalar(v) {
                match dec_chars(s1, (n - 1) as nat) {
                    None => None,
                    Some((cs, r)) => Some((seq![v as char] + cs, r)),
                }
            } else {
                None
            },
        }
    }
}

/// A string: count, then that many characters.
pub open spec fn dec_str(s: Seq<u8>) -> Option<(Seq<char>, Seq<u8>)> {
    match dec_u64(s) {
        None => None,
        Some((n, s1)) => dec_chars(s1, n as nat),
    }
}

/// An optional string.
pub open spec fn dec_opt_str(s: Seq<u8>) -> Option<(Option<Seq<char>>, Seq<u8>)> {
    match dec_byte(s) {
        None => None,
        Some((tag, s1)) => if tag == 0u8 {
            Some((None, s1))
        } else if tag == 1u8 {
            match dec_str(s1) {
                None => None,
                Some((v, r)) => Some((Some(v), r)),
            }
        } else {
            None
        },
    }
}

/// An optional shard tag.
pub open spec fn dec_opt_shard(s: Seq<u8>) -> Option<(Option<ShardID>, Seq<u8>)> {
    match dec_byte(s) {
        None => None,
        Some((tag, s1)) => if tag == 0u8 {
            Some((None, s1))
        } else if tag == 1u8 {
            match dec_usize(s1) {
                None => None,
                Some((id, s2)) => match dec_usize(s2) {
                    None => None,
                    Some((shards, r)) => Some((Some(ShardID { id, shards }), r)),
                },
            }
        } else {
            None
        },
    }
}

/// `n` strings off the front.
pub open spec fn dec_strs_items(s: Seq<u8>, n: nat) -> Option<(Seq<Seq<char>>, Seq<u8>)>
    decreases n,
{
    if n == 0 {
        Some((Seq::empty(), s))
    } else {
        match dec_str(s) {
            None => None,
            Some((v, s1)) => match dec_strs_items(s1, (n - 1) as nat) {
                None => None,
                Some((vs, r)) => Some((seq![v] + vs, r)),
            },
        }
    }
}

/// A list of strings: count, then the items.
pub open spec fn dec_strs(s: Seq<u8>) -> Option<(Seq<Seq<char>>, Seq<u8>)> {
    match dec_u64(s) {
        None => None,
        Some((n, s1)) => dec_strs_items(s1, n as nat),
    }
}

/// One row.
pub open spec fn dec_entry(s: Seq<u8>) -> Option<(EntryV, Seq<u8>)> {
    match dec_usize(s) {
        None => None,
        Some((key, s1)) => match dec_i64(s1) {
            None => None,
            Some((timestamp, s2)) => match dec_strs(s2) {
                None => None,
                Some((cells, r)) => Some((EntryV { key, timestamp, cells }, r)),
            },
        },
    }
}

/// `n` rows off the front.
pub open spec fn dec_entries_items(s: Seq<u8>, n: nat) -> Option<(Seq<EntryV>, Seq<u8>)>
    decreases n,
{
    if n == 0 {
        Some((Seq::empty(), s))
    } else {
        match dec_entry(s) {
            None => None,
            Some((e, s1)) => match dec_entries_items(s1, (n - 1) as nat) {
                None => None,
                Some((es, r)) => Some((seq![e] + es, r)),
            },
        }
    }
}

/// A whole table. The buffer must be consumed exactly, and the decoded
/// table must satisfy the store's key discipline — anything else is a
/// corrupt buffer.
pub open spec fn dec_table(s: Seq<u8>) -> Option<TableV> {
    match dec_opt_str(s) {
        None => None,
        Some((name, s1)) => match dec_usize(s1) {
            None => None,
            Some((latest, s2)) => match dec_strs(s2) {
                None => None,
                Some((columns, s3)) => match dec_opt_shard(s3) {
                    None => None,
                    Some((shard, s4)) => match dec_u64(s4) {
                        None => None,
                        Some((n, s5)) => match dec_entries_items(s5, n as nat) {
                            None => None,
                            Some((entries, r)) => {
                                let tv = TableV { name, latest, columns, shard, entries };
                                if r.len() == 0 && tv.wf() {
                                    Some(tv)
                                } else {
                                    None
                                }
                            },
                        },
                    },
                },
            },
        },
    }
}

// ------------------------------------------------------------- encoder
/// Appending one character to a string appends its scalar's bytes.
proof fn lemma_enc_chars_push(a: Seq<char>, c: char)
    ensures
        enc_chars(a.push(c)) == enc_chars(a) + enc_u32(c as u32),
    decreases a.len(),
{
    if a.len() == 0 {
        assert(a.push(c).drop_first() =~= Seq::<char>::empty());
        assert(a.push(c)[0] == c);
        assert(enc_chars(Seq::<char>::empty()) == Seq::<u8>::empty());
        assert(enc_chars(a.push(c)) == enc_u32(c as u32) + Seq::<u8>::empty());
        assert(enc_chars(a.push(c)) =~= enc_chars(a) + enc_u32(c as u32));
    } else {
        assert(a.push(c).drop_first() =~= a.drop_first().push(c));
        assert(a.push(c)[0] == a[0]);
        lemma_enc_chars_push(a.drop_first(), c);
        assert(enc_chars(a.push(c)) == enc_u32(a[0] as u32) + (enc_chars(a.drop_first())
            + enc_u32(c as u32)));
        assert(enc_chars(a.push(c)) =~= enc_chars(a) + enc_u32(c as u32));
    }
}

/// Appending one string to a list appends its bytes.
proof fn lemma_enc_strs_items_push(ss: Seq<Seq<char>>, s: Seq<char>)
    ensures
        enc_strs_items(ss.push(s)) == enc_strs_items(ss) + enc_str(s),
    decreases ss.len(),
{
    if ss.len() == 0 {
        assert(ss.push(s).drop_first() =~= Seq::<Seq<char>>::empty());
        assert(ss.push(s)[0] == s);
        assert(enc_strs_items(Seq::<Seq<char>>::empty()) == Seq::<u8>::empty());
        assert(enc_strs_items(ss.push(s)) == enc_str(s) + Seq::<u8>::empty());
        assert(enc_strs_items(ss.push(s)) =~= enc_strs_items(ss) + enc_str(s));
    } else {
        assert(ss.push(s).drop_first() =~= ss.drop_first().push(s));
        assert(ss.push(s)[0] == ss[0]);
        lemma_enc_strs_items_push(ss.drop_first(), s);
        assert(enc_strs_items(ss.push(s)) == enc_str(ss[0]) + (enc_strs_items(ss.drop_first())
            + enc_str(s)));
        assert(enc_strs_items(ss.push(s)) =~= enc_strs_items(ss) + enc_str(s));
    }
}

/// Appending one row to a list appends its bytes.
pub(crate) proof fn lemma_enc_entries_push(es: Seq<EntryV>, e: EntryV)
    ensures
        enc_entries_items(es.push(e)) == enc_entries_items(es) + enc_entry(e),
    decreases es.len(),
{
    if es.len() == 0 {
        assert(es.push(e).drop_first() =~= Seq::<EntryV>::empty());
        assert(es.push(e)[0] == e);
        assert(enc_entries_items(Seq::<EntryV>::empty()) == Seq::<u8>::empty());
        assert(enc_entries_items(es.push(e)) == enc_entry(e) + Seq::<u8>::empty());
        assert(enc_entries_items(es.push(e)) =~= enc_entries_items(es) + enc_entry(e));
    } else {
        assert(es.push(e).drop_first() =~= es.drop_first().push(e));
        assert(es.push(e)[0] == es[0]);
        lemma_enc_entries_push(es.drop_first(), e);
        assert(enc_entries_items(es.push(e)) == enc_entry(es[0]) + (enc_entries_items(
            es.drop_first(),
        ) + enc_entry(e)));
        assert(enc_entries_items(es.push(e)) =~= enc_entries_items(es) + enc_entry(e));
    }
}

pub(crate) fn push_byte(buf: &mut Vec<u8>, b: u8)
    ensures
        final(buf)@ == old(buf)@ + seq![b],
{
    buf.push(b);
    proof {
        assert(buf@ =~= old(buf)@ + seq![b]);
    }
}

pub(crate) fn push_u64(buf: &mut Vec<u8>, x: u64)
    ensures
        final(buf)@ == old(buf)@ + enc_u64(x),
{
    let mut bs = vstd::bytes::u64_to_le_bytes(x);
    buf.append(&mut bs);
}

pub(crate) fn push_u32(buf: &mut Vec<u8>, x: u32)
    ensures
        final(buf)@ == old(buf)@ + enc_u32(x),
{
    let mut bs = vstd::bytes::u32_to_le_bytes(x);
    buf.append(&mut bs);
}

pub(crate) fn push_i64(buf: &mut Vec<u8>, t: i64)
    ensures
        final(buf)@ == old(buf)@ + enc_i64(t),
{
    if t >= 0 {
        push_byte(buf, 0);
        push_u64(buf, t as u64);
        proof {
            assert(buf@ =~= old(buf)@ + enc_i64(t));
        }
    } else {
        push_byte(buf, 1);
        let off = -(t + 1);
        push_u64(buf, off as u64);
        proof {
            assert(buf@ =~= old(buf)@ + enc_i64(t));
        }
    }
}

pub(crate) fn push_str(buf: &mut Vec<u8>, s: &str)
    ensures
        final(buf)@ == old(buf)@ + enc_str(s@),
        str_ok(s@),
{
    let n = s.unicode_len();
    push_u64(buf, n as u64);
    let ghost mid = buf@;
    let mut i: usize = 0;
    while i < n
        invariant
            i <= n,
            n == s@.len(),
            buf@ == mid + enc_chars(s@.take(i as int)),
        decreases n - i,
    {
        let c = s.get_char(i);
        push_u32(buf, c as u32);
        proof {
            assert(s@.take(i + 1) =~= s@.take(i as int).push(s@[i as int]));
            lemma_enc_chars_push(s@.take(i as int), s@[i as int]);
            assert(buf@ =~= mid + enc_chars(s@.take(i + 1)));
        }
        i += 1;
    }
    proof {
        assert(s@.take(n as int) =~= s@);
        assert(buf@ =~= old(buf)@ + enc_str(s@));
    }
}

pub(crate) fn push_strs(buf: &mut Vec<u8>, ss: &Vec<String>)
    ensures
        final(buf)@ == old(buf)@ + enc_strs(ss.deep_view()),
        ss.deep_view().len() <= u64::MAX,
        forall|i: int| 0 <= i < ss.deep_view().len() ==> str_ok(#[trigger] ss.deep_view()[i]),
{
    let n = ss.len();
    push_u64(buf, n as u64);
    let ghost mid = buf@;
    let mut i: usize = 0;
    while i < n
        invariant
            i <= n,
            n == ss@.len(),
            buf@ == mid + enc_strs_items(ss.deep_view().take(i as int)),
            forall|j: int| 0 <= j < i ==> str_ok(#[trigger] ss.deep_view()[j]),
        decreases n - i,
    {
        proof {
            assert(ss.deep_view()[i as int] == ss@[i as int]@);
        }
        push_str(buf, ss[i].as_str());
        proof {
            assert(ss.deep_view().take(i + 1) =~= ss.deep_view().take(i as int).push(
                ss.deep_view()[i as int],
            ));
            lemma_enc_strs_items_push(ss.deep_view().take(i as int), ss.deep_view()[i as int]);
            assert(buf@ =~= mid + enc_strs_items(ss.deep_view().take(i + 1)));
        }
        i += 1;
    }
    proof {
        assert(ss.deep_view().take(n as int) =~= ss.deep_view());
        assert(buf@ =~= old(buf)@ + enc_strs(ss.deep_view()));
    }
}

/// One row's bytes: key, timestamp, cells.
pub(crate) fn push_entry(buf: &mut Vec<u8>, e: &Entry)
    ensures
        final(buf)@ == old(buf)@ + enc_entry(e@),
        row_ok(e@.cells),
{
    push_u64(buf, e.key as u64);
    push_i64(buf, e.timestamp);
    push_strs(buf, &e.cells);
    proof {
        assert(buf@ =~= old(buf)@ + enc_entry(e@));
    }
}

// ------------------------------------------------------------- decoder
pub(crate) fn take_byte(buf: &Vec<u8>, pos: usize) -> (r: Option<(u8, usize)>)
    requires
        pos <= buf@.len(),
    ensures
        match r {
            Some(bp) => pos < bp.1 <= buf@.len() && dec_byte(buf@.skip(pos as int)) == Some(
                (bp.0, buf@.skip(bp.1 as int)),
            ),
            None => dec_byte(buf@.skip(pos as int)) is None,
        },
{
    if pos < buf.len() {
        let b = buf[pos];
        proof {
            assert(buf@.skip(pos as int)[0] == b);
            assert(buf@.skip(pos as int).drop_first() =~= buf@.skip(pos as int + 1));
        }
        Some((b, pos + 1))
    } else {
        None
    }
}

pub(crate) fn take_u64(buf: &Vec<u8>, pos: usize) -> (r: Option<(u64, usize)>)
    requires
        pos <= buf@.len(),
    ensures
        match r {
            Some(bp) => pos < bp.1 <= buf@.len() && dec_u64(buf@.skip(pos as int)) == Some(
                (bp.0, buf@.skip(bp.1 as int)),
            ),
            None => dec_u64(buf@.skip(pos as int)) is None,
        },
{
    if buf.len() - pos >= 8 {
        let part = vstd::slice::slice_subrange(buf.as_slice(), pos, pos + 8);
        let x = vstd::bytes::u64_from_le_bytes(part);
        proof {
            assert(buf@.skip(pos as int).take(8) =~= buf@.subrange(pos as int, pos as int + 8));
            assert(buf@.skip(pos as int).skip(8) =~= buf@.skip(pos as int + 8));
        }
        Some((x, pos + 8))
    } else {
        None
    }
}

pub(crate) fn take_u32(buf: &Vec<u8>, pos: usize) -> (r: Option<(u32, usize)>)
    requires
        pos <= buf@.len(),
    ensures
        match r {
            Some(bp) => pos < bp.1 <= buf@.len() && dec_u32(buf@.skip(pos as int)) == Some(
                (bp.0, buf@.skip(bp.1 as int)),
            ),
            None => dec_u32(buf@.skip(pos as int)) is None,
        },
{
    if buf.len() - pos >= 4 {
        let part = vstd::slice::slice_subrange(buf.as_slice(), pos, pos + 4);
        let x = vstd::bytes::u32_from_le_bytes(part);
        proof {
            assert(buf@.skip(pos as int).take(4) =~= buf@.subrange(pos as int, pos as int + 4));
            assert(buf@.skip(pos as int).skip(4) =~= buf@.skip(pos as int + 4));
        }
        Some((x, pos + 4))
    } else {
        None
    }
}

pub(crate) fn take_usize(buf: &Vec<u8>, pos: usize) -> (r: Option<(usize, usize)>)
    requires
        pos <= buf@.len(),
    ensures
        match r {
            Some(bp) => pos < bp.1 <= buf@.len() && dec_usize(buf@.skip(pos as int)) == Some(
                (bp.0, buf@.skip(bp.1 as int)),
            ),
            None => dec_usize(buf@.skip(pos as int)) is None,
        },
{
    match take_u64(buf, pos) {
        None => None,
        Some((v, p)) => {
            if v <= usize::MAX as u64 {
                Some((v as usize, p))
            } else {
                None
            }
        },
    }
}

pub(crate) fn take_i64(buf: &Vec<u8>, pos: usize) -> (r: Option<(i64, usize)>)
    requires
        pos <= buf@.len(),
    ensures
        match r {
            Some(bp) => pos < bp.1 <= buf@.len() && dec_i64(buf@.skip(pos as int)) == Some(
                (bp.0, buf@.skip(bp.1 as int)),
            ),
            None => dec_i64(buf@.skip(pos as int)) is None,
        },
{
    let (tag, p1) = match take_byte(buf, pos) {
        None => {
            return None;
        },
        Some(x) => x,
    };
    let (v, p2) = match take_u64(buf, p1) {
        None => {
            return None;
        },
        Some(x) => x,
    };
    if v <= i64::MAX as u64 {
        if tag == 0 {
            Some((v as i64, p2))
        } else if tag == 1 {
            Some((-(v as i64) - 1, p2))
        } else {
            None
        }
    } else {
        None
    }
}

/// A string off the buffer: its count field, then that many scalars.
pub(crate) fn take_str(buf: &Vec<u8>, pos: usize) -> (r: Option<(String, usize)>)
    requires
        pos <= buf@.len(),
    ensures
        match r {
            Some(bp) => pos < bp.1 <= buf@.len() && dec_str(buf@.skip(pos as int)) == Some(
                (bp.0@, buf@.skip(bp.1 as int)),
            ),
            None => dec_str(buf@.skip(pos as int)) is None,
        },
{
    let (n, p1) = match take_u64(buf, pos) {
        None => {
            return None;
        },
        Some(x) => x,
    };
    let mut acc = String::new();
    let mut cur = p1;
    let mut i: u64 = 0;
    while i < n
        invariant
            i <= n,
            p1 <= cur <= buf@.len(),
            pos < p1,
            dec_str(buf@.skip(pos as int)) == dec_chars(buf@.skip(p1 as int), n as nat),
            ({
                match dec_chars(buf@.skip(cur as int), (n - i) as nat) {
                    Some(csr) => dec_chars(buf@.skip(p1 as int), n as nat) == Some(
                        (acc@ + csr.0, csr.1),
                    ),
                    None => dec_chars(buf@.skip(p1 as int), n as nat) is None,
                }
            }),
        decreases n - i,
    {
        let (v, p2) = match take_u32(buf, cur) {
            None => {
                return None;
            },
            Some(x) => x,
        };
        let c = match crate::text::char_from_u32(v) {
            None => {
                return None;
            },
            Some(c) => c,
        };
        proof {
            vstd::utf8::char_u32_cast(c, v);
            let m = (n - i) as nat;
            assert(dec_chars(buf@.skip(cur as int), m) == (match dec_chars(
                buf@.skip(p2 as int),
                (m - 1) as nat,
            ) {
                None => None::<(Seq<char>, Seq<u8>)>,
                Some(csr) => Some((seq![c] + csr.0, csr.1)),
            }));
        }
        let ghost pre_acc = acc@;
        crate::text::push_char(&mut acc, c);
        proof {
            assert(acc@ =~= pre_acc + seq![c]);
            let m1 = (n - (i + 1)) as nat;
            match dec_chars(buf@.skip(p2 as int), m1) {
                Some(csr) => {
                    assert(pre_acc + (seq![c] + csr.0) =~= acc@ + csr.0);
                },
                None => {},
            }
        }
        cur = p2;
        i = i + 1;
    }
    proof {
        assert(dec_chars(buf@.skip(cur as int), 0) == Some(
            (Seq::<char>::empty(), buf@.skip(cur as int)),
        ));
        assert(acc@ + Seq::<char>::empty() =~= acc@);
    }
    Some((acc, cur))
}

/// An optional string: its presence byte, then the string if present.
pub(crate) fn take_opt_name(buf: &Vec<u8>, pos: usize) -> (r: Option<(Option<String>, usize)>)
    requires
        pos <= buf@.len(),
    ensures
        match r {
            Some(bp) => pos < bp.1 <= buf@.len() && dec_opt_str(buf@.skip(pos as int)) == Some(
                (
                    match bp.0 {
                        Some(s) => Some(s@),
                        None => None,
                    },
                    buf@.skip(bp.1 as int),
                ),
            ),
            None => dec_opt_str(buf@.skip(pos as int)) is None,
        },
{
    let (tag, p1) = match take_byte(buf, pos) {
        None => {
            return None;
        },
        Some(x) => x,
    };
    if tag == 0 {
        Some((None, p1))
    } else if tag == 1 {
        match take_str(buf, p1) {
            None => None,
            Some((s, p2)) => Some((Some(s), p2)),
        }
    } else {
        None
    }
}

/// An optional shard tag.
pub(crate) fn take_opt_shard(buf: &Vec<u8>, pos: usize) -> (r: Option<(Option<ShardID>, usize)>)
    requires
        pos <= buf@.len(),
    ensures
        match r {
            Some(bp) => pos < bp.1 <= buf@.len() && dec_opt_shard(buf@.skip(pos as int)) == Some(
                (bp.0, buf@.skip(bp.1 as int)),
            ),
            None => dec_opt_shard(buf@.skip(pos as int)) is None,
        },
{
    let (tag, p1) = match take_byte(buf, pos) {
        None => {
            return None;
        },
        Some(x) => x,
    };
    if tag == 0 {
        Some((None, p1))
    } else if tag == 1 {
        let (id, p2) = match take_usize(buf, p1) {
            None => {
                return None;
            },
            Some(x) => x,
        };
        let (shards, p3) = match take_usize(buf, p2) {
            None => {
                return None;
            },
            Some(x) => x,
        };
        Some((Some(ShardID { id, shards }), p3))
    } else {
        None
    }
}

/// A list of strings: its count field, then the items.
pub(crate) fn take_strs(buf: &Vec<u8>, pos: usize) -> (r: Option<(Vec<String>, usize)>)
    requires
        pos <= buf@.len(),
    ensures
        match r {
            Some(bp) => pos < bp.1 <= buf@.len() && dec_strs(buf@.skip(pos as int)) == Some(
                (bp.0.deep_view(), buf@.skip(bp.1 as int)),
            ),
            None => dec_strs(buf@.skip(pos as int)) is None,
        },
{
    let (n, p1) = match take_u64(buf, pos) {
        None => {
            return None;
        },
        Some(x) => x,
    };
    let mut acc: Vec<String> = Vec::new();
    let mut cur = p1;
    let mut i: u64 = 0;
    proof {
        assert(acc.deep_view() =~= Seq::<Seq<char>>::empty());
    }
    while i < n
        invariant
            i <= n,
            p1 <= cur <= buf@.len(),
            pos < p1,
            dec_strs(buf@.skip(pos as int)) == dec_strs_items(buf@.skip(p1 as int), n as nat),
            ({
                match dec_strs_items(buf@.skip(cur as int), (n - i) as nat) {
                    Some(csr) => dec_strs_items(buf@.skip(p1 as int), n as nat) == Some(
                        (acc.deep_view() + csr.0, csr.1),
                    ),
                    None => dec_strs_items(buf@.skip(p1 as int), n as nat) is None,
                }
            }),
        decreases n - i,
    {
        let (s, p2) = match take_str(buf, cur) {
            None => {
                return None;
            },
            Some(x) => x,
        };
        proof {
            let m = (n - i) as nat;
            assert(dec_strs_items(buf@.skip(cur as int), m) == (match dec_strs_items(
                buf@.skip(p2 as int),
                (m - 1) as nat,
            ) {
                None => None::<(Seq<Seq<char>>, Seq<u8>)>,
                Some(csr) => Some((seq![s@] + csr.0, csr.1)),
            }));
        }
        let ghost pre_acc = acc.deep_view();
        let ghost sv = s@;
        acc.push(s);
        proof {
            assert forall|t: int| 0 <= t < acc@.len() implies acc.deep_view()[t] == pre_acc.push(
                sv,
            )[t] by {
                assert(acc.deep_view()[t] == acc@[t]@);
            }
            assert(acc.deep_view() =~= pre_acc.push(sv));
            let m1 = (n - (i + 1)) as nat;
            match dec_strs_items(buf@.skip(p2 as int), m1) {
                Some(csr) => {
                    assert(pre_acc + (seq![sv] + csr.0) =~= acc.deep_view() + csr.0);
                },
                None => {},
            }
        }
        cur = p2;
        i = i + 1;
    }
    proof {
        assert(dec_strs_items(buf@.skip(cur as int), 0) == Some(
            (Seq::<Seq<char>>::empty(), buf@.skip(cur as int)),
        ));
        assert(acc.deep_view() + Seq::<Seq<char>>::empty() =~= acc.deep_view());
    }
    Some((acc, cur))
}

/// One row: key, timestamp, cells.
pub(crate) fn take_entry(buf: &Vec<u8>, pos: usize) -> (r: Option<(Entry, usize)>)
    requires
        pos <= buf@.len(),
    ensures
        match r {
            Some(bp) => pos < bp.1 <= buf@.len() && dec_entry(buf@.skip(pos as int)) == Some(
                (bp.0@, buf@.skip(bp.1 as int)),
            ),
            None => dec_entry(buf@.skip(pos as int)) is None,
        },
{
    let (key, p1) = match take_usize(buf, pos) {
        None => {
            return None;
        },
        Some(x) => x,
    };
    let (timestamp, p2) = match take_i64(buf, p1) {
        None => {
            return None;
        },
        Some(x) => x,
    };
    let (cells, p3) = match take_strs(buf, p2) {
        None => {
            return None;
        },
        Some(x) => x,
    };
    let e = Entry { key, timestamp, cells };
    proof {
        assert(e@ =~~= (EntryV { key, timestamp, cells: e.cells.deep_view() }));
    }
    Some((e, p3))
}

/// The rows: a count field, then that many rows.
pub(crate) fn take_entries(buf: &Vec<u8>, pos: usize) -> (r: Option<(Vec<Entry>, usize)>)
    requires
        pos <= buf@.len(),
    ensures
        match r {
            Some(bp) => pos < bp.1 <= buf@.len() && ({
                let s0 = buf@.skip(pos as int);
                match dec_u64(s0) {
                    None => false,
                    Some((n, s1)) => dec_entries_items(s1, n as nat) == Some(
                        (bp.0@.map_values(|e: Entry| e@), buf@.skip(bp.1 as int)),
                    ),
                }
            }),
            None => ({
                let s0 = buf@.skip(pos as int);
                match dec_u64(s0) {
                    None => true,
                    Some((n, s1)) => dec_entries_items(s1, n as nat) is None,
                }
            }),
        },
{
    let (n, p1) = match take_u64(buf, pos) {
        None => {
            return None;
        },
        Some(x) => x,
    };
    let mut acc: Vec<Entry> = Vec::new();
    let mut cur = p1;
    let mut i: u64 = 0;
    proof {
        assert(acc@.map_values(|e: Entry| e@) =~= Seq::<EntryV>::empty());
    }
    while i < n
        invariant
            i <= n,
            p1 <= cur <= buf@.len(),
            pos < p1,
            dec_u64(buf@.skip(pos as int)) == Some((n, buf@.skip(p1 as int))),
            ({
                match dec_entries_items(buf@.skip(cur as int), (n - i) as nat) {
                    Some(csr) => dec_entries_items(buf@.skip(p1 as int), n as nat) == Some(
                        (acc@.map_values(|e: Entry| e@) + csr.0, csr.1),
                    ),
                    None => dec_entries_items(buf@.skip(p1 as int), n as nat) is None,
                }
            }),
        decreases n - i,
    {
        let (e, p2) = match take_entry(buf, cur) {
            None => {
                return None;
            },
            Some(x) => x,
        };
        proof {
            let m = (n - i) as nat;
            assert(dec_entries_items(buf@.skip(cur as int), m) == (match dec_entries_items(
                buf@.skip(p2 as int),
                (m - 1) as nat,
            ) {
                None => None::<(Seq<EntryV>, Seq<u8>)>,
                Some(csr) => Some((seq![e@] + csr.0, csr.1)),
            }));
        }
        let ghost pre_acc = acc@.map_values(|e2: Entry| e2@);
        let ghost ev = e@;
        acc.push(e);
        proof {
            assert(acc@.map_values(|e2: Entry| e2@) =~= pre_acc.push(ev));
            let m1 = (n - (i + 1)) as nat;
            match dec_entries_items(buf@.skip(p2 as int), m1) {
                Some(csr) => {
                    assert(pre_acc + (seq![ev] + csr.0) =~= acc@.map_values(|e2: Entry| e2@)
                        + csr.0);
                },
                None => {},
            }
        }
        cur = p2;
        i = i + 1;
    }
    proof {
        assert(dec_entries_items(buf@.skip(cur as int), 0) == Some(
            (Seq::<EntryV>::empty(), buf@.skip(cur as int)),
        ));
        assert(acc@.map_values(|e: Entry| e@) + Seq::<EntryV>::empty() =~= acc@.map_values(
            |e: Entry| e@,
        ));
    }
    Some((acc, cur))
}

// ---------------------------------------------------------- round trip
proof fn lemma_dec_byte(b: u8, rest: Seq<u8>)
    ensures
        dec_byte(seq![b] + rest) == Some((b, rest)),
{
    let s = seq![b] + rest;
    assert(s[0] == b);
    assert(s.drop_first() =~= rest);
}

proof fn lemma_dec_u64(x: u64, rest: Seq<u8>)
    ensures
        dec_u64(enc_u64(x) + rest) == Some((x, rest)),
{
    vstd::bytes::lemma_auto_spec_u64_to_from_le_bytes();
    let s = enc_u64(x) + rest;
    assert(s.take(8) =~= enc_u64(x));
    assert(s.skip(8) =~= rest);
}

proof fn lemma_dec_u32(x: u32, rest: Seq<u8>)
    ensures
        dec_u32(enc_u32(x) + rest) == Some((x, rest)),
{
    vstd::bytes::lemma_auto_spec_u32_to_from_le_bytes();
    let s = enc_u32(x) + rest;
    assert(s.take(4) =~= enc_u32(x));
    assert(s.skip(4) =~= rest);
}

proof fn lemma_dec_usize(x: usize, rest: Seq<u8>)
    ensures
        dec_usize(enc_usize(x) + rest) == Some((x, rest)),
{
    lemma_dec_u64(x as u64, rest);
}

proof fn lemma_dec_i64(t: i64, rest: Seq<u8>)
    ensures
        dec_i64(enc_i64(t) + rest) == Some((t, rest)),
{
    if t >= 0 {
        let v = t as u64;
        assert(enc_i64(t) + rest =~= seq![0u8] + (enc_u64(v) + rest));
        lemma_dec_byte(0u8, enc_u64(v) + rest);
        lemma_dec_u64(v, rest);
    } else {
        let v = (-(t + 1)) as u64;
        assert(enc_i64(t) + rest =~= seq![1u8] + (enc_u64(v) + rest));
        lemma_dec_byte(1u8, enc_u64(v) + rest);
        lemma_dec_u64(v, rest);
        assert(-(v as i64) - 1 == t);
    }
}

proof fn lemma_dec_chars(s: Seq<char>, rest: Seq<u8>)
    ensures
        dec_chars(enc_chars(s) + rest, s.len()) == Some((s, rest)),
    decreases s.len(),
{
    if s.len() == 0 {
        assert(enc_chars(s) + rest =~= rest);
        assert(Seq::<char>::empty() =~= s);
    } else {
        let c = s[0];
        let tail = s.drop_first();
        assert(enc_chars(s) + rest =~= enc_u32(c as u32) + (enc_chars(tail) + rest));
        lemma_dec_u32(c as u32, enc_chars(tail) + rest);
        vstd::utf8::char_is_scalar(c);
        vstd::utf8::char_u32_cast(c, c as u32);
        lemma_dec_chars(tail, rest);
        assert(seq![(c as u32) as char] + tail =~= s);
    }
}

proof fn lemma_dec_str(s: Seq<char>, rest: Seq<u8>)
    requires
        str_ok(s),
    ensures
        dec_str(enc_str(s) + rest) == Some((s, rest)),
{
    assert(enc_str(s) + rest =~= enc_u64(s.len() as u64) + (enc_chars(s) + rest));
    lemma_dec_u64(s.len() as u64, enc_chars(s) + rest);
    lemma_dec_chars(s, rest);
}

proof fn lemma_dec_opt_str(o: Option<Seq<char>>, rest: Seq<u8>)
    requires
        o matches Some(s) ==> str_ok(s),
    ensures
        dec_opt_str(enc_opt_str(o) + rest) == Some((o, rest)),
{
    match o {
        None => {
            assert(enc_opt_str(o) + rest =~= seq![0u8] + rest);
            lemma_dec_byte(0u8, rest);
        },
        Some(s) => {
            assert(enc_opt_str(o) + rest =~= seq![1u8] + (enc_str(s) + rest));
            lemma_dec_byte(1u8, enc_str(s) + rest);
            lemma_dec_str(s, rest);
        },
    }
}

proof fn lemma_dec_opt_shard(o: Option<ShardID>, rest: Seq<u8>)
    ensures
        dec_opt_shard(enc_opt_shard(o) + rest) == Some((o, rest)),
{
    match o {
        None => {
            assert(enc_opt_shard(o) + rest =~= seq![0u8] + rest);
            lemma_dec_byte(0u8, rest);
        },
        Some(sh) => {
            assert(enc_opt_shard(o) + rest =~= seq![1u8] + (enc_usize(sh.id) + (enc_usize(
                sh.shards,
            ) + rest)));
            lemma_dec_byte(1u8, enc_usize(sh.id) + (enc_usize(sh.shards) + rest));
            lemma_dec_usize(sh.id, enc_usize(sh.shards) + rest);
            lemma_dec_usize(sh.shards, rest);
        },
    }
}

proof fn lemma_dec_strs_items(ss: Seq<Seq<char>>, rest: Seq<u8>)
    requires
        forall|i: int| 0 <= i < ss.len() ==> str_ok(#[trigger] ss[i]),
    ensures
        dec_strs_items(enc_strs_items(ss) + rest, ss.len()) == Some((ss, rest)),
    decreases ss.len(),
{
    if ss.len() == 0 {
        assert(enc_strs_items(ss) + rest =~= rest);
        assert(Seq::<Seq<char>>::empty() =~= ss);
    } else {
        let hd = ss[0];
        let tail = ss.drop_first();
        assert(enc_strs_items(ss) + rest =~= enc_str(hd) + (enc_strs_items(tail) + rest));
        lemma_dec_str(hd, enc_strs_items(tail) + rest);
        lemma_dec_strs_items(tail, rest);
        assert(seq![hd] + tail =~= ss);
    }
}

proof fn lemma_dec_strs(ss: Seq<Seq<char>>, rest: Seq<u8>)
    requires
        ss.len() <= u64::MAX,
        forall|i: int| 0 <= i < ss.len() ==> str_ok(#[trigger] ss[i]),
    ensures
        dec_strs(enc_strs(ss) + rest) == Some((ss, rest)),
{
    assert(enc_strs(ss) + rest =~= enc_u64(ss.len() as u64) + (enc_strs_items(ss) + rest));
    lemma_dec_u64(ss.len() as u64, enc_strs_items(ss) + rest);
    lemma_dec_strs_items(ss, rest);
}

proof fn lemma_dec_entry(e: EntryV, rest: Seq<u8>)
    requires
        row_ok(e.cells),
    ensures
        dec_entry(enc_entry(e) + rest) == Some((e, rest)),
{
    assert(enc_entry(e) + rest =~= enc_usize(e.key) + (enc_i64(e.timestamp) + (enc_strs(e.cells)
        + rest)));
    lemma_dec_usize(e.key, enc_i64(e.timestamp) + (enc_strs(e.cells) + rest));
    lemma_dec_i64(e.timestamp, enc_strs(e.cells) + rest);
    lemma_dec_strs(e.cells, rest);
}

proof fn lemma_dec_entries_items(es: Seq<EntryV>, rest: Seq<u8>)
    requires
        forall|i: int| 0 <= i < es.len() ==> row_ok((#[trigger] es[i]).cells),
    ensures
        dec_entries_items(enc_entries_items(es) + rest, es.len()) == Some((es, rest)),
    decreases es.len(),
{
    if es.len() == 0 {
        assert(enc_entries_items(es) + rest =~= rest);
        assert(Seq::<EntryV>::empty() =~= es);
    } else {
        let hd = es[0];
        let tail = es.drop_first();
        assert(enc_entries_items(es) + rest =~= enc_entry(hd) + (enc_entries_items(tail) + rest));
        lemma_dec_entry(hd, enc_entries_items(tail) + rest);
        lemma_dec_entries_items(tail, rest);
        assert(seq![hd] + tail =~= es);
    }
}

/// Serialization round-trip: decoding the encoding of any well-formed,
/// machine-representable table yields exactly that table — the same name,
/// key counter, columns, shard tag, and rows with their keys, timestamps
/// and cells.
pub proof fn lemma_codec_round_trip(tv: TableV)
    requires
        tv.wf(),
        bounded(tv),
    ensures
        dec_table(enc_table(tv)) == Some(tv),
{
    let r5 = enc_u64(tv.entries.len() as u64) + enc_entries_items(tv.entries);
    let r4 = enc_opt_shard(tv.shard) + r5;
    let r3 = enc_strs(tv.columns) + r4;
    let r2 = enc_usize(tv.latest) + r3;
    assert(enc_table(tv) =~= enc_opt_str(tv.name) + r2);
    lemma_dec_opt_str(tv.name, r2);
    assert(r2 =~= enc_usize(tv.latest) + r3);
    lemma_dec_usize(tv.latest, r3);
    lemma_dec_strs(tv.columns, r4);
    lemma_dec_opt_shard(tv.shard, r5);
    assert(r5 =~= enc_u64(tv.entries.len() as u64) + (enc_entries_items(tv.entries)
        + Seq::empty()));
    lemma_dec_u64(tv.entries.len() as u64, enc_entries_items(tv.entries) + Seq::empty());
    lemma_dec_entries_items(tv.entries, Seq::empty());
    assert(TableV {
        name: tv.name,
        latest: tv.latest,
        columns: tv.columns,
        shard: tv.shard,
        entries: tv.entries,
    } =~= tv);
}

} // verus!
