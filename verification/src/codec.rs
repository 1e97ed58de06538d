//! The fixed, versionless binary encoding of a deck's metadata snapshot:
//! the blob stored beside the attachment files inside a saved archive.
//!
//! Layout: every integer is little-endian; a byte run or a string (as
//! UTF-8) is preceded by its byte length as a `u64`; a list is preceded by
//! its element count as a `u64`; a flag is one byte, `1` for true.  The
//! snapshot holds the deck identifier, the name, the cards and the metadata
//! of every attachment (identifier, extension, reference count) — never the
//! attachments' byte payloads, which live as files of their own.

use crate::deck::{Deck, DeckV};
use crate::error::{Error, Kind};
use crate::filedesc::{FdV, FileDesc};
use crate::flashcard::{CardV, Field, Flashcard, Side};
use crate::outside::string_from_utf8;
use vstd::prelude::*;
use vstd::slice::{slice_subrange, slice_to_vec};
use vstd::string::StrSliceExecFns;
use vstd::utf8::{
    decode_utf8, encode_utf8, encode_utf8_decode_utf8, encode_utf8_valid_utf8, valid_utf8,
};

verus! {

/// The eight little-endian bytes of `n`.
pub open spec fn le64(n: u64) -> Seq<u8> {
    seq![
        (n & 0xff) as u8,
        ((n >> 8) & 0xff) as u8,
        ((n >> 16) & 0xff) as u8,
        ((n >> 24) & 0xff) as u8,
        ((n >> 32) & 0xff) as u8,
        ((n >> 40) & 0xff) as u8,
        ((n >> 48) & 0xff) as u8,
        ((n >> 56) & 0xff) as u8,
    ]
}

/// The four little-endian bytes of `n`.
pub open spec fn le32(n: u32) -> Seq<u8> {
    seq![(n & 0xff) as u8, ((n >> 8) & 0xff) as u8, ((n >> 16) & 0xff) as u8, ((n >> 24)
        & 0xff) as u8]
}

/// A byte run preceded by its length.
pub open spec fn enc_bytes(b: Seq<u8>) -> Seq<u8> {
    le64(b.len() as u64) + b
}

/// A string: its UTF-8 bytes preceded by their length.
pub open spec fn enc_str(s: Seq<char>) -> Seq<u8> {
    enc_bytes(encode_utf8(s))
}

/// One flag byte.
pub open spec fn enc_bool(b: bool) -> Seq<u8> {
    seq![if b { 1u8 } else { 0u8 }]
}

/// The encodings of the elements of `s`, one after the other.
pub open spec fn concat_map<T>(s: Seq<T>, f: spec_fn(T) -> Seq<u8>) -> Seq<u8>
    decreases s.len(),
{
    if s.len() == 0 {
        Seq::empty()
    } else {
        f(s.first()) + concat_map(s.drop_first(), f)
    }
}

/// The string encodings of `ss`, one after the other.
pub open spec fn cat_strs(ss: Seq<Seq<char>>) -> Seq<u8> {
    concat_map(ss, |s: Seq<char>| enc_str(s))
}

/// The card encodings of `cs`, one after the other.
pub open spec fn cat_cards(cs: Seq<CardV>) -> Seq<u8> {
    concat_map(cs, |c: CardV| enc_card(c))
}

/// The metadata encodings of `fs`, one after the other.
pub open spec fn cat_fds(fs: Seq<FdV>) -> Seq<u8> {
    concat_map(fs, |f: FdV| enc_fd(f))
}

/// A list of strings: the count, then each string.
pub open spec fn enc_str_seq(ss: Seq<Seq<char>>) -> Seq<u8> {
    le64(ss.len() as u64) + cat_strs(ss)
}

/// One card: its fields, its sides, its rendering flag.
pub open spec fn enc_card(c: CardV) -> Seq<u8> {
    enc_str_seq(c.fields) + enc_str_seq(c.sides) + enc_bool(c.auto_rendering)
}

/// The card list: the count, then each card.
pub open spec fn enc_cards(cs: Seq<CardV>) -> Seq<u8> {
    le64(cs.len() as u64) + cat_cards(cs)
}

/// One attachment's metadata: identifier, extension, reference count.  The
/// in-memory bytes are deliberately excluded: they are re-derived from
/// files on disk.
pub open spec fn enc_fd(f: FdV) -> Seq<u8> {
    enc_str(f.id) + enc_str(f.ext) + le32(f.rc)
}

/// The attachment store's metadata: the count, then each entry.
pub open spec fn enc_fds(fs: Seq<FdV>) -> Seq<u8> {
    le64(fs.len() as u64) + cat_fds(fs)
}

/// The whole metadata snapshot of a deck.
pub open spec fn enc_deck(d: DeckV) -> Seq<u8> {
    enc_str(d.id) + enc_str(d.name) + enc_cards(d.cards) + enc_fds(d.storage)
}

/// The snapshot does not depend on the open or closed state of the
/// attachments: a deck and its fully closed counterpart encode alike.
pub proof fn lemma_enc_deck_ignores_data(d: DeckV)
    ensures
        enc_deck(d.closed()) == enc_deck(d),
{
    lemma_enc_fds_ignores_data(d.storage);
}

proof fn lemma_enc_fds_ignores_data(fs: Seq<FdV>)
    ensures
        concat_map(fs.map_values(|f: FdV| f.closed()), |f: FdV| enc_fd(f)) == cat_fds(fs),
        enc_fds(fs.map_values(|f: FdV| f.closed())) == enc_fds(fs),
    decreases fs.len(),
{
    let closed = fs.map_values(|f: FdV| f.closed());
    if fs.len() == 0 {
        assert(cat_fds(closed) =~= cat_fds(fs));
    } else {
        assert(closed.drop_first() =~= fs.drop_first().map_values(|f: FdV| f.closed()));
        lemma_enc_fds_ignores_data(fs.drop_first());
        assert(enc_fd(closed.first()) == enc_fd(fs.first()));
    }
}

/// Appending one element at the end appends its encoding at the end.
pub proof fn lemma_concat_map_push<T>(s: Seq<T>, x: T, f: spec_fn(T) -> Seq<u8>)
    ensures
        concat_map(s.push(x), f) == concat_map(s, f) + f(x),
    decreases s.len(),
{
    if s.len() == 0 {
        assert(s.push(x).first() == x);
        assert(s.push(x).drop_first() =~= Seq::<T>::empty());
        assert(concat_map(s.push(x), f) == f(x) + concat_map(Seq::<T>::empty(), f));
        assert(concat_map(s.push(x), f) =~= concat_map(s, f) + f(x));
    } else {
        assert(s.push(x).drop_first() =~= s.drop_first().push(x));
        lemma_concat_map_push(s.drop_first(), x, f);
        assert(concat_map(s.push(x), f) =~= concat_map(s, f) + f(x));
    }
}

// ------------------------------------------------------------------
// The encoder.
// ------------------------------------------------------------------
/// Appends the eight little-endian bytes of `n`.
fn push_le64(out: &mut Vec<u8>, n: u64)
    ensures
        final(out)@ == old(out)@ + le64(n),
{
    out.push((n & 0xff) as u8);
    out.push(((n >> 8) & 0xff) as u8);
    out.push(((n >> 16) & 0xff) as u8);
    out.push(((n >> 24) & 0xff) as u8);
    out.push(((n >> 32) & 0xff) as u8);
    out.push(((n >> 40) & 0xff) as u8);
    out.push(((n >> 48) & 0xff) as u8);
    out.push(((n >> 56) & 0xff) as u8);
    proof {
        assert(final(out)@ =~= old(out)@ + le64(n));
    }
}

/// Appends the four little-endian bytes of `n`.
fn push_le32(out: &mut Vec<u8>, n: u32)
    ensures
        final(out)@ == old(out)@ + le32(n),
{
    out.push((n & 0xff) as u8);
    out.push(((n >> 8) & 0xff) as u8);
    out.push(((n >> 16) & 0xff) as u8);
    out.push(((n >> 24) & 0xff) as u8);
    proof {
        assert(final(out)@ =~= old(out)@ + le32(n));
    }
}

/// Appends a length-prefixed string.
fn push_str(out: &mut Vec<u8>, s: &str)
    ensures
        final(out)@ == old(out)@ + enc_str(s@),
{
    let bytes = s.as_bytes_vec();
    push_le64(out, bytes.len() as u64);
    out.extend_from_slice(bytes.as_slice());
    proof {
        assert(final(out)@ =~= old(out)@ + enc_str(s@));
    }
}

/// Appends a length-prefixed list of field texts.
fn push_fields(out: &mut Vec<u8>, fields: &Vec<Field>)
    ensures
        final(out)@ == old(out)@ + enc_str_seq(fields@.map_values(|f: Field| f@)),
{
    let ghost ss = fields@.map_values(|f: Field| f@);
    push_le64(out, fields.len() as u64);
    let mut k: usize = 0;
    while k < fields.len()
        invariant
            k <= fields.len(),
            ss == fields@.map_values(|f: Field| f@),
            out@ == old(out)@ + le64(ss.len() as u64) + cat_strs(ss.take(k as int)),
        decreases fields.len() - k,
    {
        push_str(out, fields[k].data().as_str());
        proof {
            assert(ss.take(k + 1) =~= ss.take(k as int).push(ss[k as int]));
            lemma_concat_map_push(ss.take(k as int), ss[k as int], |s: Seq<char>| enc_str(s));
            assert(out@ =~= old(out)@ + le64(ss.len() as u64) + cat_strs(ss.take(k + 1)));
        }
        k = k + 1;
    }
    proof {
        assert(ss.take(fields@.len() as int) =~= ss);
        assert(final(out)@ =~= old(out)@ + enc_str_seq(ss));
    }
}

/// Appends a length-prefixed list of side texts.
fn push_sides(out: &mut Vec<u8>, sides: &Vec<Side>)
    ensures
        final(out)@ == old(out)@ + enc_str_seq(sides@.map_values(|s: Side| s@)),
{
    let ghost ss = sides@.map_values(|s: Side| s@);
    push_le64(out, sides.len() as u64);
    let mut k: usize = 0;
    while k < sides.len()
        invariant
            k <= sides.len(),
            ss == sides@.map_values(|s: Side| s@),
            out@ == old(out)@ + le64(ss.len() as u64) + cat_strs(ss.take(k as int)),
        decreases sides.len() - k,
    {
        push_str(out, sides[k].data().as_str());
        proof {
            assert(ss.take(k + 1) =~= ss.take(k as int).push(ss[k as int]));
            lemma_concat_map_push(ss.take(k as int), ss[k as int], |s: Seq<char>| enc_str(s));
            assert(out@ =~= old(out)@ + le64(ss.len() as u64) + cat_strs(ss.take(k + 1)));
        }
        k = k + 1;
    }
    proof {
        assert(ss.take(sides@.len() as int) =~= ss);
        assert(final(out)@ =~= old(out)@ + enc_str_seq(ss));
    }
}

/// Appends one card.
fn push_card(out: &mut Vec<u8>, card: &Flashcard)
    ensures
        final(out)@ == old(out)@ + enc_card(card@),
{
    push_fields(out, card.fields());
    push_sides(out, card.sides());
    out.push(if card.auto_rendering() {
        1u8
    } else {
        0u8
    });
    proof {
        assert(final(out)@ =~= old(out)@ + enc_card(card@));
    }
}

/// Appends the length-prefixed card list.
fn push_cards(out: &mut Vec<u8>, cards: &Vec<Flashcard>)
    ensures
        final(out)@ == old(out)@ + enc_cards(cards@.map_values(|c: Flashcard| c@)),
{
    let ghost cs = cards@.map_values(|c: Flashcard| c@);
    push_le64(out, cards.len() as u64);
    let mut k: usize = 0;
    while k < cards.len()
        invariant
            k <= cards.len(),
            cs == cards@.map_values(|c: Flashcard| c@),
            out@ == old(out)@ + le64(cs.len() as u64) + cat_cards(cs.take(k as int)),
        decreases cards.len() - k,
    {
        push_card(out, &cards[k]);
        proof {
            assert(cs.take(k + 1) =~= cs.take(k as int).push(cs[k as int]));
            lemma_concat_map_push(cs.take(k as int), cs[k as int], |c: CardV| enc_card(c));
            assert(out@ =~= old(out)@ + le64(cs.len() as u64) + cat_cards(cs.take(k + 1)));
        }
        k = k + 1;
    }
    proof {
        assert(cs.take(cards@.len() as int) =~= cs);
        assert(final(out)@ =~= old(out)@ + enc_cards(cs));
    }
}

/// Appends the length-prefixed attachment metadata list.
fn push_fds(out: &mut Vec<u8>, fds: &Vec<FileDesc>)
    ensures
        final(out)@ == old(out)@ + enc_fds(fds@.map_values(|f: FileDesc| f@)),
{
    let ghost fs = fds@.map_values(|f: FileDesc| f@);
    push_le64(out, fds.len() as u64);
    let mut k: usize = 0;
    while k < fds.len()
        invariant
            k <= fds.len(),
            fs == fds@.map_values(|f: FileDesc| f@),
            out@ == old(out)@ + le64(fs.len() as u64) + cat_fds(fs.take(k as int)),
        decreases fds.len() - k,
    {
        push_str(out, fds[k].id().as_str());
        push_str(out, fds[k].ext().as_str());
        push_le32(out, fds[k].rc());
        proof {
            assert(fs.take(k + 1) =~= fs.take(k as int).push(fs[k as int]));
            lemma_concat_map_push(fs.take(k as int), fs[k as int], |f: FdV| enc_fd(f));
            assert(out@ =~= old(out)@ + le64(fs.len() as u64) + cat_fds(fs.take(k + 1)));
        }
        k = k + 1;
    }
    proof {
        assert(fs.take(fds@.len() as int) =~= fs);
        assert(final(out)@ =~= old(out)@ + enc_fds(fs));
    }
}

/// Builds the metadata snapshot of a deck.
pub fn encode_deck(deck: &Deck) -> (out: Vec<u8>)
    ensures
        out@ == enc_deck(deck@),
{
    let mut out: Vec<u8> = Vec::new();
    push_str(&mut out, deck.id().as_str());
    push_str(&mut out, deck.name().as_str());
    push_cards(&mut out, deck.cards());
    push_fds(&mut out, deck.attachments());
    proof {
        assert(out@ =~= enc_deck(deck@));
    }
    out
}

// ------------------------------------------------------------------
// The decoder.
// ------------------------------------------------------------------
/// `e` stands written in `v` at position `i`.
pub open spec fn has_at(v: Seq<u8>, i: int, e: Seq<u8>) -> bool {
    0 <= i && i + e.len() <= v.len() && v.subrange(i, i + e.len()) == e
}

/// A concatenation written at `i` is its first part written at `i` and its
/// second part written right after.
pub proof fn lemma_has_at_split(v: Seq<u8>, i: int, e1: Seq<u8>, e2: Seq<u8>)
    requires
        has_at(v, i, e1 + e2),
    ensures
        has_at(v, i, e1),
        has_at(v, i + e1.len(), e2),
{
    let both = e1 + e2;
    assert forall|k: int| 0 <= k < e1.len() implies v.subrange(i, i + e1.len())[k] == e1[k] by {
        assert(v.subrange(i, i + both.len())[k] == v[i + k]);
        assert(both[k] == e1[k]);
    }
    assert(v.subrange(i, i + e1.len()) =~= e1);
    assert forall|k: int|
        0 <= k < e2.len() implies v.subrange(i + e1.len(), i + e1.len() + e2.len())[k]
        == e2[k] by {
        assert(v.subrange(i, i + both.len())[e1.len() + k] == v[i + e1.len() + k]);
        assert(both[e1.len() + k] == e2[k]);
    }
    assert(v.subrange(i + e1.len(), i + e1.len() + e2.len()) =~= e2);
}

/// Two parts written one after the other are their concatenation written at
/// the position of the first.
pub proof fn lemma_has_at_join(v: Seq<u8>, i: int, e1: Seq<u8>, e2: Seq<u8>)
    requires
        has_at(v, i, e1),
        has_at(v, i + e1.len(), e2),
    ensures
        has_at(v, i, e1 + e2),
{
    assert forall|k: int| 0 <= k < e1.len() implies v[i + k] == e1[k] by {
        assert(v.subrange(i, i + e1.len())[k] == v[i + k]);
    }
    assert forall|k: int| 0 <= k < e2.len() implies v[i + e1.len() + k] == e2[k] by {
        assert(v.subrange(i + e1.len(), i + e1.len() + e2.len())[k] == v[i + e1.len() + k]);
    }
    assert(v.subrange(i, i + (e1 + e2).len()) =~= e1 + e2);
}

/// Reads a little-endian `u64`.  Exactly inverts [`le64`]: whatever number
/// stands written at `i`, that number and the position after it come back.
fn parse_u64(v: &Vec<u8>, i: usize) -> (r: Option<(u64, usize)>)
    ensures
        forall|n: u64| has_at(v@, i as int, #[trigger] le64(n)) ==> r == Some(
            (n, (i + 8) as usize),
        ),
        r matches Some(p) ==> has_at(v@, i as int, le64(p.0)) && p.1 == i + 8,
{
    if v.len() < 8 || i > v.len() - 8 {
        assert(forall|n: u64| !has_at(v@, i as int, #[trigger] le64(n)));
        return None;
    }
    let b0 = v[i];
    let b1 = v[i + 1];
    let b2 = v[i + 2];
    let b3 = v[i + 3];
    let b4 = v[i + 4];
    let b5 = v[i + 5];
    let b6 = v[i + 6];
    let b7 = v[i + 7];
    let n: u64 = (b0 as u64) | ((b1 as u64) << 8) | ((b2 as u64) << 16) | ((b3 as u64) << 24) | (
    (b4 as u64) << 32) | ((b5 as u64) << 40) | ((b6 as u64) << 48) | ((b7 as u64) << 56);
    proof {
        assert((n & 0xff) as u8 == b0 && ((n >> 8) & 0xff) as u8 == b1 && ((n >> 16) & 0xff) as u8
            == b2 && ((n >> 24) & 0xff) as u8 == b3 && ((n >> 32) & 0xff) as u8 == b4 && ((n >> 40)
            & 0xff) as u8 == b5 && ((n >> 48) & 0xff) as u8 == b6 && ((n >> 56) & 0xff) as u8 == b7)
            by (bit_vector)
            requires
                n == (b0 as u64) | ((b1 as u64) << 8) | ((b2 as u64) << 16) | ((b3 as u64) << 24)
                    | ((b4 as u64) << 32) | ((b5 as u64) << 40) | ((b6 as u64) << 48) | ((b7
                    as u64) << 56),
        ;
        assert(v@.subrange(i as int, i + 8) =~= le64(n));
        assert forall|m: u64| has_at(v@, i as int, #[trigger] le64(m)) implies m == n by {
            assert(le64(m)[0] == v@.subrange(i as int, i + 8)[0]);
            assert(le64(m)[1] == v@.subrange(i as int, i + 8)[1]);
            assert(le64(m)[2] == v@.subrange(i as int, i + 8)[2]);
            assert(le64(m)[3] == v@.subrange(i as int, i + 8)[3]);
            assert(le64(m)[4] == v@.subrange(i as int, i + 8)[4]);
            assert(le64(m)[5] == v@.subrange(i as int, i + 8)[5]);
            assert(le64(m)[6] == v@.subrange(i as int, i + 8)[6]);
            assert(le64(m)[7] == v@.subrange(i as int, i + 8)[7]);
            assert(m == n) by (bit_vector)
                requires
                    (m & 0xff) as u8 == b0,
                    ((m >> 8) & 0xff) as u8 == b1,
                    ((m >> 16) & 0xff) as u8 == b2,
                    ((m >> 24) & 0xff) as u8 == b3,
                    ((m >> 32) & 0xff) as u8 == b4,
                    ((m >> 40) & 0xff) as u8 == b5,
                    ((m >> 48) & 0xff) as u8 == b6,
                    ((m >> 56) & 0xff) as u8 == b7,
                    n == (b0 as u64) | ((b1 as u64) << 8) | ((b2 as u64) << 16) | ((b3
                        as u64) << 24) | ((b4 as u64) << 32) | ((b5 as u64) << 40) | ((b6
                        as u64) << 48) | ((b7 as u64) << 56),
            ;
        }
    }
    Some((n, i + 8))
}

/// Reads a little-endian `u32`, exactly inverting [`le32`].
fn parse_u32(v: &Vec<u8>, i: usize) -> (r: Option<(u32, usize)>)
    ensures
        forall|n: u32| has_at(v@, i as int, #[trigger] le32(n)) ==> r == Some(
            (n, (i + 4) as usize),
        ),
        r matches Some(p) ==> has_at(v@, i as int, le32(p.0)) && p.1 == i + 4,
{
    if v.len() < 4 || i > v.len() - 4 {
        assert(forall|n: u32| !has_at(v@, i as int, #[trigger] le32(n)));
        return None;
    }
    let b0 = v[i];
    let b1 = v[i + 1];
    let b2 = v[i + 2];
    let b3 = v[i + 3];
    let n: u32 = (b0 as u32) | ((b1 as u32) << 8) | ((b2 as u32) << 16) | ((b3 as u32) << 24);
    proof {
        assert((n & 0xff) as u8 == b0 && ((n >> 8) & 0xff) as u8 == b1 && ((n >> 16) & 0xff) as u8
            == b2 && ((n >> 24) & 0xff) as u8 == b3) by (bit_vector)
            requires
                n == (b0 as u32) | ((b1 as u32) << 8) | ((b2 as u32) << 16) | ((b3 as u32) << 24),
        ;
        assert(v@.subrange(i as int, i + 4) =~= le32(n));
        assert forall|m: u32| has_at(v@, i as int, #[trigger] le32(m)) implies m == n by {
            assert(le32(m)[0] == v@.subrange(i as int, i + 4)[0]);
            assert(le32(m)[1] == v@.subrange(i as int, i + 4)[1]);
            assert(le32(m)[2] == v@.subrange(i as int, i + 4)[2]);
            assert(le32(m)[3] == v@.subrange(i as int, i + 4)[3]);
            assert(m == n) by (bit_vector)
                requires
                    (m & 0xff) as u8 == b0,
                    ((m >> 8) & 0xff) as u8 == b1,
                    ((m >> 16) & 0xff) as u8 == b2,
                    ((m >> 24) & 0xff) as u8 == b3,
                    n == (b0 as u32) | ((b1 as u32) << 8) | ((b2 as u32) << 16) | ((b3
                        as u32) << 24),
            ;
        }
    }
    Some((n, i + 4))
}

/// Reads one flag byte, exactly inverting [`enc_bool`]: anything but `0`
/// and `1` is rejected.
fn parse_bool(v: &Vec<u8>, i: usize) -> (r: Option<(bool, usize)>)
    ensures
        forall|b: bool| has_at(v@, i as int, #[trigger] enc_bool(b)) ==> r == Some(
            (b, (i + 1) as usize),
        ),
        r matches Some(p) ==> has_at(v@, i as int, enc_bool(p.0)) && p.1 == i + 1,
{
    if i >= v.len() {
        assert(forall|b: bool| !has_at(v@, i as int, #[trigger] enc_bool(b)));
        return None;
    }
    let byte = v[i];
    proof {
        assert forall|b: bool| has_at(v@, i as int, #[trigger] enc_bool(b)) implies enc_bool(b)[0]
            == v@[i as int] by {
            assert(v@.subrange(i as int, i + 1)[0] == v@[i as int]);
        }
        assert(v@.subrange(i as int, i + 1) =~= seq![v@[i as int]]);
    }
    if byte == 0 {
        Some((false, i + 1))
    } else if byte == 1 {
        Some((true, i + 1))
    } else {
        None
    }
}

/// Reads a length-prefixed byte run, exactly inverting [`enc_bytes`].
fn parse_bytes(v: &Vec<u8>, i: usize) -> (r: Option<(Vec<u8>, usize)>)
    ensures
        forall|b: Seq<u8>| has_at(v@, i as int, #[trigger] enc_bytes(b)) ==> (r matches Some(p)
            && p.0@ == b && p.1 == i + 8 + b.len()),
        r matches Some(p) ==> has_at(v@, i as int, enc_bytes(p.0@)) && p.1 == i + 8 + p.0@.len(),
{
    let (len, j) = match parse_u64(v, i) {
        Some(p) => p,
        None => {
            proof {
                assert forall|b: Seq<u8>| !has_at(v@, i as int, #[trigger] enc_bytes(b)) by {
                    if has_at(v@, i as int, enc_bytes(b)) {
                        lemma_has_at_split(v@, i as int, le64(b.len() as u64), b);
                    }
                }
            }
            return None;
        },
    };
    let rem = (v.len() - j) as u64;
    if rem < len {
        proof {
            assert forall|b: Seq<u8>| !has_at(v@, i as int, #[trigger] enc_bytes(b)) by {
                if has_at(v@, i as int, enc_bytes(b)) {
                    lemma_has_at_split(v@, i as int, le64(b.len() as u64), b);
                }
            }
        }
        return None;
    }
    let len_us = len as usize;
    let end = j + len_us;
    let bytes = slice_to_vec(slice_subrange(v.as_slice(), j, end));
    proof {
        assert(bytes@ =~= v@.subrange(j as int, end as int));
        assert(has_at(v@, j as int, bytes@));
        assert((bytes@.len() as u64) == len);
        lemma_has_at_join(v@, i as int, le64(len), bytes@);
        assert forall|b: Seq<u8>| has_at(v@, i as int, #[trigger] enc_bytes(b)) implies b
            == bytes@ by {
            lemma_has_at_split(v@, i as int, le64(b.len() as u64), b);
            assert(b.len() as u64 == len);
            assert(b =~= v@.subrange(j as int, end as int));
        }
    }
    Some((bytes, end))
}

/// Reads a length-prefixed UTF-8 string, exactly inverting [`enc_str`].
fn parse_string(v: &Vec<u8>, i: usize) -> (r: Option<(String, usize)>)
    ensures
        forall|s: Seq<char>| has_at(v@, i as int, #[trigger] enc_str(s)) ==> (r matches Some(p)
            && p.0@ == s && p.1 == i + enc_str(s).len()),
        r matches Some(p) ==> has_at(v@, i as int, enc_str(p.0@)) && p.1 == i + enc_str(p.0@).len(),
{
    broadcast use encode_utf8_valid_utf8, encode_utf8_decode_utf8;

    let (bytes, j) = match parse_bytes(v, i) {
        Some(p) => p,
        None => {
            assert(forall|s: Seq<char>| !has_at(v@, i as int, #[trigger] enc_str(s)));
            return None;
        },
    };
    let ghost bytes_v = bytes@;
    match string_from_utf8(bytes) {
        Some(s) => {
            proof {
                assert forall|t: Seq<char>| has_at(v@, i as int, #[trigger] enc_str(t)) implies s@
                    == t && j == i + enc_str(t).len() by {
                    assert(bytes_v == encode_utf8(t));
                    assert(decode_utf8(encode_utf8(s@)) == s@);
                    assert(decode_utf8(encode_utf8(t)) == t);
                }
            }
            Some((s, j))
        },
        None => {
            proof {
                assert forall|t: Seq<char>| !has_at(v@, i as int, #[trigger] enc_str(t)) by {
                    if has_at(v@, i as int, enc_str(t)) {
                        assert(bytes_v == encode_utf8(t));
                        assert(valid_utf8(bytes_v));
                    }
                }
            }
            None
        },
    }
}

/// The texts of a sequence of strings.
pub open spec fn strs_v(v: Seq<String>) -> Seq<Seq<char>> {
    v.map_values(|s: String| s@)
}

/// The values of a sequence of cards.
pub open spec fn cards_v(v: Seq<Flashcard>) -> Seq<CardV> {
    v.map_values(|c: Flashcard| c@)
}

/// The values of a sequence of descriptors.
pub open spec fn fds_v(v: Seq<FileDesc>) -> Seq<FdV> {
    v.map_values(|f: FileDesc| f@)
}

proof fn lemma_cat_strs_len(ss: Seq<Seq<char>>)
    ensures
        cat_strs(ss).len() >= ss.len(),
    decreases ss.len(),
{
    if ss.len() > 0 {
        lemma_cat_strs_len(ss.drop_first());
    }
}

proof fn lemma_cat_cards_len(cs: Seq<CardV>)
    ensures
        cat_cards(cs).len() >= cs.len(),
    decreases cs.len(),
{
    if cs.len() > 0 {
        lemma_cat_cards_len(cs.drop_first());
    }
}

proof fn lemma_cat_fds_len(fs: Seq<FdV>)
    ensures
        cat_fds(fs).len() >= fs.len(),
    decreases fs.len(),
{
    if fs.len() > 0 {
        lemma_cat_fds_len(fs.drop_first());
    }
}

/// Reads `n` strings one after the other, exactly inverting their
/// concatenated encodings.
fn parse_strings_n(v: &Vec<u8>, i: usize, n: u64) -> (r: Option<(Vec<String>, usize)>)
    requires
        i <= v@.len(),
    ensures
        forall|ss: Seq<Seq<char>>|
            ss.len() == n && has_at(
                v@,
                i as int,
                #[trigger] cat_strs(ss),
            ) ==> (r matches Some(p) && strs_v(p.0@) == ss && p.1 == i + cat_strs(ss).len()),
        r matches Some(p) ==> p.0@.len() == n && has_at(
            v@,
            i as int,
            cat_strs(strs_v(p.0@)),
        ) && p.1 == i + cat_strs(strs_v(p.0@)).len(),
    decreases n,
{
    if n == 0 {
        let out: Vec<String> = Vec::new();
        proof {
            assert(strs_v(out@) =~= Seq::<Seq<char>>::empty());
            assert(v@.subrange(i as int, i as int) =~= cat_strs(strs_v(out@)));
            assert forall|ss: Seq<Seq<char>>|
                ss.len() == n && has_at(
                    v@,
                    i as int,
                    #[trigger] cat_strs(ss),
                ) implies strs_v(out@) == ss && cat_strs(ss).len()
                == 0 by {
                assert(ss =~= Seq::<Seq<char>>::empty());
            }
        }
        return Some((out, i));
    }
    let (s, j) = match parse_string(v, i) {
        Some(p) => p,
        None => {
            proof {
                assert forall|ss: Seq<Seq<char>>|
                    !(ss.len() == n && has_at(
                        v@,
                        i as int,
                        #[trigger] cat_strs(ss),
                    )) by {
                    if ss.len() == n && has_at(
                        v@,
                        i as int,
                        cat_strs(ss),
                    ) {
                        lemma_has_at_split(
                            v@,
                            i as int,
                            enc_str(ss.first()),
                            cat_strs(ss.drop_first()),
                        );
                    }
                }
            }
            return None;
        },
    };
    let ghost s_v = s@;
    let rest = match parse_strings_n(v, j, n - 1) {
        Some(p) => p,
        None => {
            proof {
                assert forall|ss: Seq<Seq<char>>|
                    !(ss.len() == n && has_at(
                        v@,
                        i as int,
                        #[trigger] cat_strs(ss),
                    )) by {
                    if ss.len() == n && has_at(
                        v@,
                        i as int,
                        cat_strs(ss),
                    ) {
                        lemma_has_at_split(
                            v@,
                            i as int,
                            enc_str(ss.first()),
                            cat_strs(ss.drop_first()),
                        );
                    }
                }
            }
            return None;
        },
    };
    let (mut out, k) = rest;
    let ghost rest_v = strs_v(out@);
    out.insert(0, s);
    proof {
        assert(strs_v(out@) =~= seq![s_v] + rest_v);
        assert((seq![s_v] + rest_v).first() == s_v);
        assert((seq![s_v] + rest_v).drop_first() =~= rest_v);
        lemma_has_at_join(
            v@,
            i as int,
            enc_str(s_v),
            cat_strs(rest_v),
        );
        assert forall|ss: Seq<Seq<char>>|
            ss.len() == n && has_at(
                v@,
                i as int,
                #[trigger] cat_strs(ss),
            ) implies strs_v(out@) == ss && k == i + cat_strs(ss).len() by {
            lemma_has_at_split(
                v@,
                i as int,
                enc_str(ss.first()),
                cat_strs(ss.drop_first()),
            );
            assert(s_v == ss.first());
            assert(rest_v == ss.drop_first());
            assert(strs_v(out@) =~= ss);
        }
    }
    Some((out, k))
}

/// Reads a count-prefixed list of strings, exactly inverting
/// [`enc_str_seq`].
fn parse_strings(v: &Vec<u8>, i: usize) -> (r: Option<(Vec<String>, usize)>)
    ensures
        forall|ss: Seq<Seq<char>>| has_at(v@, i as int, #[trigger] enc_str_seq(ss)) ==> (r matches
        Some(p) && strs_v(p.0@) == ss && p.1 == i + enc_str_seq(ss).len()),
        r matches Some(p) ==> has_at(v@, i as int, enc_str_seq(strs_v(p.0@))) && p.1 == i
            + enc_str_seq(strs_v(p.0@)).len(),
{
    let vl = v.len();
    let (count, j) = match parse_u64(v, i) {
        Some(p) => p,
        None => {
            proof {
                assert forall|ss: Seq<Seq<char>>| !has_at(v@, i as int, #[trigger] enc_str_seq(ss))
                    by {
                    if has_at(v@, i as int, enc_str_seq(ss)) {
                        lemma_has_at_split(
                            v@,
                            i as int,
                            le64(ss.len() as u64),
                            cat_strs(ss),
                        );
                    }
                }
            }
            return None;
        },
    };
    let rest = match parse_strings_n(v, j, count) {
        Some(p) => p,
        None => {
            proof {
                assert forall|ss: Seq<Seq<char>>| !has_at(v@, i as int, #[trigger] enc_str_seq(ss))
                    by {
                    if has_at(v@, i as int, enc_str_seq(ss)) {
                        lemma_has_at_split(
                            v@,
                            i as int,
                            le64(ss.len() as u64),
                            cat_strs(ss),
                        );
                        lemma_cat_strs_len(ss);
                        assert(ss.len() as u64 == count);
                    }
                }
            }
            return None;
        },
    };
    let (out, k) = rest;
    proof {
        lemma_has_at_join(
            v@,
            i as int,
            le64(count),
            cat_strs(strs_v(out@)),
        );
        assert(strs_v(out@).len() as u64 == count);
        assert forall|ss: Seq<Seq<char>>|
            has_at(v@, i as int, #[trigger] enc_str_seq(ss)) implies strs_v(out@) == ss && k == i
            + enc_str_seq(ss).len() by {
            lemma_has_at_split(
                v@,
                i as int,
                le64(ss.len() as u64),
                cat_strs(ss),
            );
            lemma_cat_strs_len(ss);
            assert(ss.len() as u64 == count);
            assert(ss.len() == count as int);
        }
    }
    Some((out, k))
}

/// Wraps each text in a [`Field`].
fn fields_from_strings(ss: Vec<String>) -> (r: Vec<Field>)
    ensures
        r@.map_values(|f: Field| f@) == strs_v(ss@),
{
    let mut out: Vec<Field> = Vec::new();
    let mut k: usize = 0;
    while k < ss.len()
        invariant
            k <= ss.len(),
            out@.map_values(|f: Field| f@) == strs_v(ss@).take(k as int),
        decreases ss.len() - k,
    {
        let ghost pre = out@;
        let fld = Field::new(ss[k].clone());
        let ghost fld_v = fld@;
        out.push(fld);
        proof {
            assert(fld_v == strs_v(ss@)[k as int]);
            assert(out@.map_values(|f: Field| f@) =~= pre.map_values(|f: Field| f@).push(fld_v));
            assert(strs_v(ss@).take(k + 1) =~= strs_v(ss@).take(k as int).push(
                strs_v(ss@)[k as int],
            ));
            assert(out@.map_values(|f: Field| f@) =~= strs_v(ss@).take(k + 1));
        }
        k = k + 1;
    }
    proof {
        assert(strs_v(ss@).take(ss@.len() as int) =~= strs_v(ss@));
    }
    out
}

/// Wraps each text in a [`Side`].
fn sides_from_strings(ss: Vec<String>) -> (r: Vec<Side>)
    ensures
        r@.map_values(|s: Side| s@) == strs_v(ss@),
{
    let mut out: Vec<Side> = Vec::new();
    let mut k: usize = 0;
    while k < ss.len()
        invariant
            k <= ss.len(),
            out@.map_values(|s: Side| s@) == strs_v(ss@).take(k as int),
        decreases ss.len() - k,
    {
        let ghost pre = out@;
        let sd = Side::new(ss[k].clone());
        let ghost sd_v = sd@;
        out.push(sd);
        proof {
            assert(sd_v == strs_v(ss@)[k as int]);
            assert(out@.map_values(|s: Side| s@) =~= pre.map_values(|s: Side| s@).push(sd_v));
            assert(strs_v(ss@).take(k + 1) =~= strs_v(ss@).take(k as int).push(
                strs_v(ss@)[k as int],
            ));
            assert(out@.map_values(|s: Side| s@) =~= strs_v(ss@).take(k + 1));
        }
        k = k + 1;
    }
    proof {
        assert(strs_v(ss@).take(ss@.len() as int) =~= strs_v(ss@));
    }
    out
}


/// The descriptors of `fs`, each with its bytes released.
pub open spec fn closed_fds(fs: Seq<FdV>) -> Seq<FdV> {
    fs.map_values(|f: FdV| f.closed())
}

/// Reads one card, exactly inverting [`enc_card`].
fn parse_card(v: &Vec<u8>, i: usize) -> (r: Option<(Flashcard, usize)>)
    ensures
        forall|c: CardV| has_at(v@, i as int, #[trigger] enc_card(c)) ==> (r matches Some(p)
            && p.0@ == c && p.1 == i + enc_card(c).len()),
        r matches Some(p) ==> has_at(v@, i as int, enc_card(p.0@)) && p.1 == i + enc_card(
            p.0@,
        ).len(),
{
    let (fstrs, j1) = match parse_strings(v, i) {
        Some(p) => p,
        None => {
            proof {
                assert forall|c: CardV| !has_at(v@, i as int, #[trigger] enc_card(c)) by {
                    if has_at(v@, i as int, enc_card(c)) {
                        lemma_card_splits(v@, i as int, c);
                    }
                }
            }
            return None;
        },
    };
    let ghost fsv = strs_v(fstrs@);
    let (sstrs, j2) = match parse_strings(v, j1) {
        Some(p) => p,
        None => {
            proof {
                assert forall|c: CardV| !has_at(v@, i as int, #[trigger] enc_card(c)) by {
                    if has_at(v@, i as int, enc_card(c)) {
                        lemma_card_splits(v@, i as int, c);
                    }
                }
            }
            return None;
        },
    };
    let ghost ssv = strs_v(sstrs@);
    let (flag, j3) = match parse_bool(v, j2) {
        Some(p) => p,
        None => {
            proof {
                assert forall|c: CardV| !has_at(v@, i as int, #[trigger] enc_card(c)) by {
                    if has_at(v@, i as int, enc_card(c)) {
                        lemma_card_splits(v@, i as int, c);
                    }
                }
            }
            return None;
        },
    };
    let card = Flashcard::new(fields_from_strings(fstrs), sides_from_strings(sstrs), flag);
    proof {
        assert(card@.fields == fsv && card@.sides == ssv && card@.auto_rendering == flag);
        lemma_has_at_join(v@, i as int, enc_str_seq(fsv), enc_str_seq(ssv));
        lemma_has_at_join(v@, i as int, enc_str_seq(fsv) + enc_str_seq(ssv), enc_bool(flag));
        assert(enc_card(card@) == (enc_str_seq(fsv) + enc_str_seq(ssv)) + enc_bool(flag));
        assert forall|c: CardV| has_at(v@, i as int, #[trigger] enc_card(c)) implies card@ == c
            && j3 == i + enc_card(c).len() by {
            lemma_card_splits(v@, i as int, c);
            assert(card@ =~= c);
        }
    }
    Some((card, j3))
}

/// What [`enc_card`] lays out, part by part.
proof fn lemma_card_splits(v: Seq<u8>, i: int, c: CardV)
    requires
        has_at(v, i, enc_card(c)),
    ensures
        has_at(v, i, enc_str_seq(c.fields)),
        has_at(v, i + enc_str_seq(c.fields).len(), enc_str_seq(c.sides)),
        has_at(
            v,
            i + enc_str_seq(c.fields).len() + enc_str_seq(c.sides).len(),
            enc_bool(c.auto_rendering),
        ),
{
    assert(enc_card(c) == (enc_str_seq(c.fields) + enc_str_seq(c.sides)) + enc_bool(
        c.auto_rendering,
    ));
    lemma_has_at_split(
        v,
        i,
        enc_str_seq(c.fields) + enc_str_seq(c.sides),
        enc_bool(c.auto_rendering),
    );
    lemma_has_at_split(v, i, enc_str_seq(c.fields), enc_str_seq(c.sides));
}

/// Reads `n` cards one after the other.
fn parse_cards_n(v: &Vec<u8>, i: usize, n: u64) -> (r: Option<(Vec<Flashcard>, usize)>)
    requires
        i <= v@.len(),
    ensures
        forall|cs: Seq<CardV>|
            cs.len() == n && has_at(v@, i as int, #[trigger] cat_cards(cs)) ==> (r matches Some(p)
                && cards_v(p.0@) == cs && p.1 == i + cat_cards(cs).len()),
        r matches Some(p) ==> p.0@.len() == n && has_at(v@, i as int, cat_cards(cards_v(p.0@)))
            && p.1 == i + cat_cards(cards_v(p.0@)).len(),
    decreases n,
{
    if n == 0 {
        let out: Vec<Flashcard> = Vec::new();
        proof {
            assert(cards_v(out@) =~= Seq::<CardV>::empty());
            assert(v@.subrange(i as int, i as int) =~= cat_cards(cards_v(out@)));
            assert forall|cs: Seq<CardV>|
                cs.len() == n && has_at(v@, i as int, #[trigger] cat_cards(cs)) implies cards_v(
                out@,
            ) == cs && cat_cards(cs).len() == 0 by {
                assert(cs =~= Seq::<CardV>::empty());
            }
        }
        return Some((out, i));
    }
    let (card, j) = match parse_card(v, i) {
        Some(p) => p,
        None => {
            proof {
                assert forall|cs: Seq<CardV>|
                    !(cs.len() == n && has_at(v@, i as int, #[trigger] cat_cards(cs))) by {
                    if cs.len() == n && has_at(v@, i as int, cat_cards(cs)) {
                        lemma_has_at_split(
                            v@,
                            i as int,
                            enc_card(cs.first()),
                            cat_cards(cs.drop_first()),
                        );
                    }
                }
            }
            return None;
        },
    };
    let ghost card_v = card@;
    let rest = match parse_cards_n(v, j, n - 1) {
        Some(p) => p,
        None => {
            proof {
                assert forall|cs: Seq<CardV>|
                    !(cs.len() == n && has_at(v@, i as int, #[trigger] cat_cards(cs))) by {
                    if cs.len() == n && has_at(v@, i as int, cat_cards(cs)) {
                        lemma_has_at_split(
                            v@,
                            i as int,
                            enc_card(cs.first()),
                            cat_cards(cs.drop_first()),
                        );
                    }
                }
            }
            return None;
        },
    };
    let (mut out, k) = rest;
    let ghost rest_v = cards_v(out@);
    out.insert(0, card);
    proof {
        assert(cards_v(out@) =~= seq![card_v] + rest_v);
        assert((seq![card_v] + rest_v).first() == card_v);
        assert((seq![card_v] + rest_v).drop_first() =~= rest_v);
        lemma_has_at_join(v@, i as int, enc_card(card_v), cat_cards(rest_v));
        assert forall|cs: Seq<CardV>|
            cs.len() == n && has_at(v@, i as int, #[trigger] cat_cards(cs)) implies cards_v(out@)
            == cs && k == i + cat_cards(cs).len() by {
            lemma_has_at_split(v@, i as int, enc_card(cs.first()), cat_cards(cs.drop_first()));
            assert(card_v == cs.first());
            assert(rest_v == cs.drop_first());
            assert(cards_v(out@) =~= cs);
        }
    }
    Some((out, k))
}

/// Reads the count-prefixed card list, exactly inverting [`enc_cards`].
#[verifier::rlimit(60)]
fn parse_cards(v: &Vec<u8>, i: usize) -> (r: Option<(Vec<Flashcard>, usize)>)
    ensures
        forall|cs: Seq<CardV>| has_at(v@, i as int, #[trigger] enc_cards(cs)) ==> (r matches Some(
            p,
        ) && cards_v(p.0@) == cs && p.1 == i + enc_cards(cs).len()),
        r matches Some(p) ==> has_at(v@, i as int, enc_cards(cards_v(p.0@))) && p.1 == i
            + enc_cards(cards_v(p.0@)).len(),
{
    let vl = v.len();
    let (count, j) = match parse_u64(v, i) {
        Some(p) => p,
        None => {
            proof {
                assert forall|cs: Seq<CardV>| !has_at(v@, i as int, #[trigger] enc_cards(cs)) by {
                    if has_at(v@, i as int, enc_cards(cs)) {
                        lemma_has_at_split(v@, i as int, le64(cs.len() as u64), cat_cards(cs));
                    }
                }
            }
            return None;
        },
    };
    let rest = match parse_cards_n(v, j, count) {
        Some(p) => p,
        None => {
            proof {
                assert forall|cs: Seq<CardV>| !has_at(v@, i as int, #[trigger] enc_cards(cs)) by {
                    if has_at(v@, i as int, enc_cards(cs)) {
                        lemma_has_at_split(v@, i as int, le64(cs.len() as u64), cat_cards(cs));
                        lemma_cat_cards_len(cs);
                        assert(cs.len() <= vl);
                        assert(cs.len() as u64 == count);
                    }
                }
            }
            return None;
        },
    };
    let (out, k) = rest;
    proof {
        lemma_has_at_join(v@, i as int, le64(count), cat_cards(cards_v(out@)));
        assert(cards_v(out@).len() as u64 == count);
        assert forall|cs: Seq<CardV>|
            has_at(v@, i as int, #[trigger] enc_cards(cs)) implies cards_v(out@) == cs && k == i
            + enc_cards(cs).len() by {
            lemma_has_at_split(v@, i as int, le64(cs.len() as u64), cat_cards(cs));
            lemma_cat_cards_len(cs);
            assert(cs.len() <= vl);
            assert(cs.len() as u64 == count);
            assert(cs.len() == count as int);
        }
    }
    Some((out, k))
}

/// Reads one attachment's metadata, exactly inverting [`enc_fd`]; the
/// rebuilt descriptor starts closed.
fn parse_fd(v: &Vec<u8>, i: usize) -> (r: Option<(FileDesc, usize)>)
    ensures
        forall|f: FdV| has_at(v@, i as int, #[trigger] enc_fd(f)) ==> (r matches Some(p) && p.0@
            == f.closed() && p.1 == i + enc_fd(f).len()),
        r matches Some(p) ==> p.0@.data is None && has_at(v@, i as int, enc_fd(p.0@)) && p.1 == i
            + enc_fd(p.0@).len(),
{
    let (id, j1) = match parse_string(v, i) {
        Some(p) => p,
        None => {
            proof {
                assert forall|f: FdV| !has_at(v@, i as int, #[trigger] enc_fd(f)) by {
                    if has_at(v@, i as int, enc_fd(f)) {
                        lemma_fd_splits(v@, i as int, f);
                    }
                }
            }
            return None;
        },
    };
    let ghost id_v = id@;
    let (ext, j2) = match parse_string(v, j1) {
        Some(p) => p,
        None => {
            proof {
                assert forall|f: FdV| !has_at(v@, i as int, #[trigger] enc_fd(f)) by {
                    if has_at(v@, i as int, enc_fd(f)) {
                        lemma_fd_splits(v@, i as int, f);
                    }
                }
            }
            return None;
        },
    };
    let ghost ext_v = ext@;
    let (rc, j3) = match parse_u32(v, j2) {
        Some(p) => p,
        None => {
            proof {
                assert forall|f: FdV| !has_at(v@, i as int, #[trigger] enc_fd(f)) by {
                    if has_at(v@, i as int, enc_fd(f)) {
                        lemma_fd_splits(v@, i as int, f);
                    }
                }
            }
            return None;
        },
    };
    let fd = FileDesc::from_meta(id, ext, rc);
    proof {
        lemma_has_at_join(v@, i as int, enc_str(id_v), enc_str(ext_v));
        lemma_has_at_join(v@, i as int, enc_str(id_v) + enc_str(ext_v), le32(rc));
        assert(enc_fd(fd@) == (enc_str(id_v) + enc_str(ext_v)) + le32(rc));
        assert forall|f: FdV| has_at(v@, i as int, #[trigger] enc_fd(f)) implies fd@ == f.closed()
            && j3 == i + enc_fd(f).len() by {
            lemma_fd_splits(v@, i as int, f);
            assert(fd@ =~= f.closed());
        }
    }
    Some((fd, j3))
}

/// What [`enc_fd`] lays out, part by part.
proof fn lemma_fd_splits(v: Seq<u8>, i: int, f: FdV)
    requires
        has_at(v, i, enc_fd(f)),
    ensures
        has_at(v, i, enc_str(f.id)),
        has_at(v, i + enc_str(f.id).len(), enc_str(f.ext)),
        has_at(v, i + enc_str(f.id).len() + enc_str(f.ext).len(), le32(f.rc)),
{
    assert(enc_fd(f) == (enc_str(f.id) + enc_str(f.ext)) + le32(f.rc));
    lemma_has_at_split(v, i, enc_str(f.id) + enc_str(f.ext), le32(f.rc));
    lemma_has_at_split(v, i, enc_str(f.id), enc_str(f.ext));
}

/// Reads `n` attachment metadata entries one after the other.
fn parse_fds_n(v: &Vec<u8>, i: usize, n: u64) -> (r: Option<(Vec<FileDesc>, usize)>)
    requires
        i <= v@.len(),
    ensures
        forall|fs: Seq<FdV>|
            fs.len() == n && has_at(v@, i as int, #[trigger] cat_fds(fs)) ==> (r matches Some(p)
                && fds_v(p.0@) == closed_fds(fs) && p.1 == i + cat_fds(fs).len()),
        r matches Some(p) ==> p.0@.len() == n && fds_v(p.0@) == closed_fds(fds_v(p.0@)) && has_at(
            v@,
            i as int,
            cat_fds(fds_v(p.0@)),
        ) && p.1 == i + cat_fds(fds_v(p.0@)).len(),
    decreases n,
{
    if n == 0 {
        let out: Vec<FileDesc> = Vec::new();
        proof {
            assert(fds_v(out@) =~= Seq::<FdV>::empty());
            assert(fds_v(out@) =~= closed_fds(fds_v(out@)));
            assert(v@.subrange(i as int, i as int) =~= cat_fds(fds_v(out@)));
            assert forall|fs: Seq<FdV>|
                fs.len() == n && has_at(v@, i as int, #[trigger] cat_fds(fs)) implies fds_v(out@)
                == closed_fds(fs) && cat_fds(fs).len() == 0 by {
                assert(fs =~= Seq::<FdV>::empty());
                assert(closed_fds(fs) =~= Seq::<FdV>::empty());
            }
        }
        return Some((out, i));
    }
    let (fd, j) = match parse_fd(v, i) {
        Some(p) => p,
        None => {
            proof {
                assert forall|fs: Seq<FdV>|
                    !(fs.len() == n && has_at(v@, i as int, #[trigger] cat_fds(fs))) by {
                    if fs.len() == n && has_at(v@, i as int, cat_fds(fs)) {
                        lemma_has_at_split(
                            v@,
                            i as int,
                            enc_fd(fs.first()),
                            cat_fds(fs.drop_first()),
                        );
                    }
                }
            }
            return None;
        },
    };
    let ghost fd_v = fd@;
    let rest = match parse_fds_n(v, j, n - 1) {
        Some(p) => p,
        None => {
            proof {
                assert forall|fs: Seq<FdV>|
                    !(fs.len() == n && has_at(v@, i as int, #[trigger] cat_fds(fs))) by {
                    if fs.len() == n && has_at(v@, i as int, cat_fds(fs)) {
                        lemma_has_at_split(
                            v@,
                            i as int,
                            enc_fd(fs.first()),
                            cat_fds(fs.drop_first()),
                        );
                    }
                }
            }
            return None;
        },
    };
    let (mut out, k) = rest;
    let ghost rest_v = fds_v(out@);
    out.insert(0, fd);
    proof {
        assert(fds_v(out@) =~= seq![fd_v] + rest_v);
        assert((seq![fd_v] + rest_v).first() == fd_v);
        assert((seq![fd_v] + rest_v).drop_first() =~= rest_v);
        assert(fd_v.closed() == fd_v);
        assert(fds_v(out@) =~= closed_fds(fds_v(out@)));
        lemma_has_at_join(v@, i as int, enc_fd(fd_v), cat_fds(rest_v));
        assert forall|fs: Seq<FdV>|
            fs.len() == n && has_at(v@, i as int, #[trigger] cat_fds(fs)) implies fds_v(out@)
            == closed_fds(fs) && k == i + cat_fds(fs).len() by {
            lemma_has_at_split(v@, i as int, enc_fd(fs.first()), cat_fds(fs.drop_first()));
            assert(fd_v == fs.first().closed());
            assert(rest_v == closed_fds(fs.drop_first()));
            assert(fds_v(out@) =~= closed_fds(fs));
        }
    }
    Some((out, k))
}

/// Reads the count-prefixed attachment metadata list, exactly inverting
/// [`enc_fds`]; every rebuilt descriptor starts closed.
#[verifier::rlimit(60)]
fn parse_fds(v: &Vec<u8>, i: usize) -> (r: Option<(Vec<FileDesc>, usize)>)
    ensures
        forall|fs: Seq<FdV>| has_at(v@, i as int, #[trigger] enc_fds(fs)) ==> (r matches Some(p)
            && fds_v(p.0@) == closed_fds(fs) && p.1 == i + enc_fds(fs).len()),
        r matches Some(p) ==> fds_v(p.0@) == closed_fds(fds_v(p.0@)) && has_at(
            v@,
            i as int,
            enc_fds(fds_v(p.0@)),
        ) && p.1 == i + enc_fds(fds_v(p.0@)).len(),
{
    let vl = v.len();
    let (count, j) = match parse_u64(v, i) {
        Some(p) => p,
        None => {
            proof {
                assert forall|fs: Seq<FdV>| !has_at(v@, i as int, #[trigger] enc_fds(fs)) by {
                    if has_at(v@, i as int, enc_fds(fs)) {
                        lemma_has_at_split(v@, i as int, le64(fs.len() as u64), cat_fds(fs));
                    }
                }
            }
            return None;
        },
    };
    let rest = match parse_fds_n(v, j, count) {
        Some(p) => p,
        None => {
            proof {
                assert forall|fs: Seq<FdV>| !has_at(v@, i as int, #[trigger] enc_fds(fs)) by {
                    if has_at(v@, i as int, enc_fds(fs)) {
                        lemma_has_at_split(v@, i as int, le64(fs.len() as u64), cat_fds(fs));
                        lemma_cat_fds_len(fs);
                        assert(fs.len() <= vl);
                        assert(fs.len() as u64 == count);
                    }
                }
            }
            return None;
        },
    };
    let (out, k) = rest;
    proof {
        lemma_has_at_join(v@, i as int, le64(count), cat_fds(fds_v(out@)));
        assert(fds_v(out@).len() as u64 == count);
        assert forall|fs: Seq<FdV>|
            has_at(v@, i as int, #[trigger] enc_fds(fs)) implies fds_v(out@) == closed_fds(fs) && k
            == i + enc_fds(fs).len() by {
            lemma_has_at_split(v@, i as int, le64(fs.len() as u64), cat_fds(fs));
            lemma_cat_fds_len(fs);
            assert(fs.len() <= vl);
            assert(fs.len() as u64 == count);
            assert(fs.len() == count as int);
        }
    }
    Some((out, k))
}

/// What [`enc_deck`] lays out, part by part.
pub proof fn lemma_deck_splits(v: Seq<u8>, d: DeckV)
    requires
        has_at(v, 0, enc_deck(d)),
    ensures
        has_at(v, 0, enc_str(d.id)),
        has_at(v, enc_str(d.id).len() as int, enc_str(d.name)),
        has_at(v, enc_str(d.id).len() + enc_str(d.name).len() as int, enc_cards(d.cards)),
        has_at(
            v,
            enc_str(d.id).len() + enc_str(d.name).len() + enc_cards(d.cards).len() as int,
            enc_fds(d.storage),
        ),
{
    let a = enc_str(d.id);
    let b = enc_str(d.name);
    let c = enc_cards(d.cards);
    let e = enc_fds(d.storage);
    assert(enc_deck(d) == ((a + b) + c) + e);
    lemma_has_at_split(v, 0, (a + b) + c, e);
    lemma_has_at_split(v, 0, a + b, c);
    lemma_has_at_split(v, 0, a, b);
}

/// Rebuilds a deck from its metadata snapshot.  Exactly inverts
/// [`enc_deck`]: the snapshot of any deck decodes to that deck with every
/// attachment closed; whatever decodes successfully re-encodes to the very
/// input, so only well-formed snapshots are accepted; anything else is
/// refused with the loading error tag.
#[verifier::rlimit(80)]
pub fn decode_deck(v: &Vec<u8>) -> (r: Result<Deck, Error>)
    ensures
        forall|d: DeckV| v@ == #[trigger] enc_deck(d) ==> (r matches Ok(deck) && deck@
            == d.closed()),
        r matches Ok(deck) ==> v@ == enc_deck(deck@) && deck@ == deck@.closed(),
        r matches Err(e) ==> e.spec_kind() == Kind::GettingDeckFromFile,
{
    proof {
        assert forall|d: DeckV| v@ == #[trigger] enc_deck(d) implies has_at(v@, 0, enc_deck(d)) by {
            assert(v@.subrange(0, v@.len() as int) =~= v@);
        }
    }
    let (id, j1) = match parse_string(v, 0) {
        Some(p) => p,
        None => {
            proof {
                assert forall|d: DeckV| v@ != #[trigger] enc_deck(d) by {
                    if v@ == enc_deck(d) {
                        lemma_deck_splits(v@, d);
                    }
                }
            }
            return Err(Error::new(Kind::GettingDeckFromFile, String::from_str(
                "malformed deck snapshot",
            )));
        },
    };
    let ghost id_v = id@;
    let (name, j2) = match parse_string(v, j1) {
        Some(p) => p,
        None => {
            proof {
                assert forall|d: DeckV| v@ != #[trigger] enc_deck(d) by {
                    if v@ == enc_deck(d) {
                        lemma_deck_splits(v@, d);
                    }
                }
            }
            return Err(Error::new(Kind::GettingDeckFromFile, String::from_str(
                "malformed deck snapshot",
            )));
        },
    };
    let ghost name_v = name@;
    let (cards, j3) = match parse_cards(v, j2) {
        Some(p) => p,
        None => {
            proof {
                assert forall|d: DeckV| v@ != #[trigger] enc_deck(d) by {
                    if v@ == enc_deck(d) {
                        lemma_deck_splits(v@, d);
                    }
                }
            }
            return Err(Error::new(Kind::GettingDeckFromFile, String::from_str(
                "malformed deck snapshot",
            )));
        },
    };
    let ghost cards_vw = cards_v(cards@);
    let (fds, j4) = match parse_fds(v, j3) {
        Some(p) => p,
        None => {
            proof {
                assert forall|d: DeckV| v@ != #[trigger] enc_deck(d) by {
                    if v@ == enc_deck(d) {
                        lemma_deck_splits(v@, d);
                    }
                }
            }
            return Err(Error::new(Kind::GettingDeckFromFile, String::from_str(
                "malformed deck snapshot",
            )));
        },
    };
    let ghost fds_vw = fds_v(fds@);
    if j4 != v.len() {
        proof {
            assert forall|d: DeckV| v@ != #[trigger] enc_deck(d) by {
                if v@ == enc_deck(d) {
                    lemma_deck_splits(v@, d);
                    assert(j4 == enc_deck(d).len());
                }
            }
        }
        return Err(Error::new(Kind::GettingDeckFromFile, String::from_str(
            "snapshot has trailing bytes",
        )));
    }
    let deck = Deck::from_parts(id, name, cards, fds);
    proof {
        lemma_has_at_join(v@, 0, enc_str(id_v), enc_str(name_v));
        lemma_has_at_join(v@, 0, enc_str(id_v) + enc_str(name_v), enc_cards(cards_vw));
        lemma_has_at_join(
            v@,
            0,
            (enc_str(id_v) + enc_str(name_v)) + enc_cards(cards_vw),
            enc_fds(fds_vw),
        );
        assert(enc_deck(deck@) == ((enc_str(id_v) + enc_str(name_v)) + enc_cards(cards_vw))
            + enc_fds(fds_vw));
        assert(v@.subrange(0, v@.len() as int) =~= v@);
        assert(v@ == enc_deck(deck@));
        assert(deck@.closed() =~= deck@);
        assert forall|d: DeckV| v@ == #[trigger] enc_deck(d) implies deck@ == d.closed() by {
            lemma_deck_splits(v@, d);
            assert(deck@ =~= d.closed());
        }
    }
    Ok(deck)
}

} // verus!
