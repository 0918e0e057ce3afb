//! The on-disk encoding of a card mapping: a length-prefixed,
//! little-endian binary form, defined here as spec functions, with
//! verified executable encode and decode and a proof that decoding an
//! encoding gives back exactly what was encoded.
//!
//! Layout: an eight-byte card count, then for each card its 16-byte
//! identifier, its length-prefixed title bytes, an eight-byte tag
//! count followed by each length-prefixed tag, its length-prefixed
//! content bytes, and the two timestamps as eight bytes each.

use vstd::prelude::*;
use crate::card::{Card, CardView};

verus! {

// ---------------------------------------------------------------
// Little-endian integers
// ---------------------------------------------------------------

/// The eight little-endian bytes of a 64-bit value.
#[verifier::opaque]
pub open spec fn u64_le(v: u64) -> Seq<u8> {
    seq![
        (v & 0xff) as u8,
        ((v >> 8) & 0xff) as u8,
        ((v >> 16) & 0xff) as u8,
        ((v >> 24) & 0xff) as u8,
        ((v >> 32) & 0xff) as u8,
        ((v >> 40) & 0xff) as u8,
        ((v >> 48) & 0xff) as u8,
        ((v >> 56) & 0xff) as u8,
    ]
}

/// The 64-bit value held in the first eight bytes of `b`.
#[verifier::opaque]
pub open spec fn u64_from(b: Seq<u8>) -> u64 {
    (b[0] as u64) | ((b[1] as u64) << 8) | ((b[2] as u64) << 16) | ((b[3] as u64) << 24) | ((b[4]
        as u64) << 32) | ((b[5] as u64) << 40) | ((b[6] as u64) << 48) | ((b[7] as u64) << 56)
}

/// The sixteen little-endian bytes of a 128-bit value.
#[verifier::opaque]
pub open spec fn u128_le(v: u128) -> Seq<u8> {
    seq![
        (v & 0xff) as u8,
        ((v >> 8) & 0xff) as u8,
        ((v >> 16) & 0xff) as u8,
        ((v >> 24) & 0xff) as u8,
        ((v >> 32) & 0xff) as u8,
        ((v >> 40) & 0xff) as u8,
        ((v >> 48) & 0xff) as u8,
        ((v >> 56) & 0xff) as u8,
        ((v >> 64) & 0xff) as u8,
        ((v >> 72) & 0xff) as u8,
        ((v >> 80) & 0xff) as u8,
        ((v >> 88) & 0xff) as u8,
        ((v >> 96) & 0xff) as u8,
        ((v >> 104) & 0xff) as u8,
        ((v >> 112) & 0xff) as u8,
        ((v >> 120) & 0xff) as u8,
    ]
}

/// The 128-bit value held in the first sixteen bytes of `b`.
#[verifier::opaque]
pub open spec fn u128_from(b: Seq<u8>) -> u128 {
    (b[0] as u128) | ((b[1] as u128) << 8) | ((b[2] as u128) << 16) | ((b[3] as u128) << 24) | ((
    b[4] as u128) << 32) | ((b[5] as u128) << 40) | ((b[6] as u128) << 48) | ((b[7] as u128) << 56)
        | ((b[8] as u128) << 64) | ((b[9] as u128) << 72) | ((b[10] as u128) << 80) | ((b[11]
        as u128) << 88) | ((b[12] as u128) << 96) | ((b[13] as u128) << 104) | ((b[14] as u128)
        << 112) | ((b[15] as u128) << 120)
}

pub proof fn lemma_u64_le_from(v: u64)
    ensures
        u64_from(u64_le(v)) == v,
{
    reveal(u64_le);
    reveal(u64_from);
    assert((((v & 0xff) as u8) as u64) | (((((v >> 8) & 0xff) as u8) as u64) << 8) | (((((v >> 16)
        & 0xff) as u8) as u64) << 16) | (((((v >> 24) & 0xff) as u8) as u64) << 24) | (((((v >> 32)
        & 0xff) as u8) as u64) << 32) | (((((v >> 40) & 0xff) as u8) as u64) << 40) | (((((v >> 48)
        & 0xff) as u8) as u64) << 48) | (((((v >> 56) & 0xff) as u8) as u64) << 56) == v)
        by (bit_vector);
}

pub proof fn lemma_u128_le_from(v: u128)
    ensures
        u128_from(u128_le(v)) == v,
{
    reveal(u128_le);
    reveal(u128_from);
    assert((((v & 0xff) as u8) as u128) | (((((v >> 8) & 0xff) as u8) as u128) << 8) | (((((v >> 16)
        & 0xff) as u8) as u128) << 16) | (((((v >> 24) & 0xff) as u8) as u128) << 24) | (((((v
        >> 32) & 0xff) as u8) as u128) << 32) | (((((v >> 40) & 0xff) as u8) as u128) << 40) | ((((
    (v >> 48) & 0xff) as u8) as u128) << 48) | (((((v >> 56) & 0xff) as u8) as u128) << 56) | ((((
    (v >> 64) & 0xff) as u8) as u128) << 64) | (((((v >> 72) & 0xff) as u8) as u128) << 72) | ((((
    (v >> 80) & 0xff) as u8) as u128) << 80) | (((((v >> 88) & 0xff) as u8) as u128) << 88) | ((((
    (v >> 96) & 0xff) as u8) as u128) << 96) | (((((v >> 104) & 0xff) as u8) as u128) << 104) | ((((
    (v >> 112) & 0xff) as u8) as u128) << 112) | (((((v >> 120) & 0xff) as u8) as u128) << 120)
        == v) by (bit_vector);
}

pub proof fn lemma_i64_u64_round(v: i64)
    ensures
        ((v as u64) as i64) == v,
{
    assert(((v as u64) as i64) == v) by (bit_vector);
}

// ---------------------------------------------------------------
// The encoding, as spec functions
// ---------------------------------------------------------------

/// A byte string: its length, then its bytes.
pub open spec fn enc_bytes(s: Seq<u8>) -> Seq<u8> {
    u64_le(s.len() as u64) + s
}

/// A tag list, one length-prefixed byte string after the other.
pub open spec fn enc_tags(ts: Seq<Seq<u8>>) -> Seq<u8>
    decreases ts.len(),
{
    if ts.len() == 0 {
        Seq::empty()
    } else {
        enc_bytes(ts[0]) + enc_tags(ts.skip(1))
    }
}

/// One card.
pub open spec fn enc_card(c: CardView) -> Seq<u8> {
    u128_le(c.id) + enc_bytes(c.title) + u64_le(c.tags.len() as u64) + enc_tags(c.tags)
        + enc_bytes(c.content) + u64_le(c.created_at as u64) + u64_le(c.updated_at as u64)
}

/// A card list, one card after the other.
pub open spec fn enc_list(s: Seq<CardView>) -> Seq<u8>
    decreases s.len(),
{
    if s.len() == 0 {
        Seq::empty()
    } else {
        enc_card(s[0]) + enc_list(s.skip(1))
    }
}

/// The whole backing-file image: the card count, then the cards.
pub open spec fn encode_spec(s: Seq<CardView>) -> Seq<u8> {
    u64_le(s.len() as u64) + enc_list(s)
}

// ---------------------------------------------------------------
// The decoding, as spec functions
// ---------------------------------------------------------------

pub open spec fn take_u64(b: Seq<u8>) -> Option<(u64, Seq<u8>)> {
    if b.len() >= 8 {
        Some((u64_from(b), b.skip(8)))
    } else {
        None
    }
}

pub open spec fn take_u128(b: Seq<u8>) -> Option<(u128, Seq<u8>)> {
    if b.len() >= 16 {
        Some((u128_from(b), b.skip(16)))
    } else {
        None
    }
}

pub open spec fn take_bytes(b: Seq<u8>) -> Option<(Seq<u8>, Seq<u8>)> {
    match take_u64(b) {
        None => None,
        Some((n, rest)) => if rest.len() >= n as nat {
            Some((rest.take(n as int), rest.skip(n as int)))
        } else {
            None
        },
    }
}

pub open spec fn take_tags(b: Seq<u8>, n: nat) -> Option<(Seq<Seq<u8>>, Seq<u8>)>
    decreases n,
{
    if n == 0 {
        Some((Seq::empty(), b))
    } else {
        match take_bytes(b) {
            None => None,
            Some((t, rest)) => match take_tags(rest, (n - 1) as nat) {
                None => None,
                Some((ts, rest2)) => Some((seq![t] + ts, rest2)),
            },
        }
    }
}

pub open spec fn take_card(b: Seq<u8>) -> Option<(CardView, Seq<u8>)> {
    match take_u128(b) {
        None => None,
        Some((id, b1)) => match take_bytes(b1) {
            None => None,
            Some((title, b2)) => match take_u64(b2) {
                None => None,
                Some((nt, b3)) => match take_tags(b3, nt as nat) {
                    None => None,
                    Some((tags, b4)) => match take_bytes(b4) {
                        None => None,
                        Some((content, b5)) => match take_u64(b5) {
                            None => None,
                            Some((ca, b6)) => match take_u64(b6) {
                                None => None,
                                Some((ua, b7)) => Some(
                                    (
                                        CardView {
                                            id,
                                            title,
                                            tags,
                                            content,
                                            created_at: ca as i64,
                                            updated_at: ua as i64,
                                        },
                                        b7,
                                    ),
                                ),
                            },
                        },
                    },
                },
            },
        },
    }
}

pub open spec fn take_cards(b: Seq<u8>, n: nat) -> Option<(Seq<CardView>, Seq<u8>)>
    decreases n,
{
    if n == 0 {
        Some((Seq::empty(), b))
    } else {
        match take_card(b) {
            None => None,
            Some((c, rest)) => match take_cards(rest, (n - 1) as nat) {
                None => None,
                Some((cs, rest2)) => Some((seq![c] + cs, rest2)),
            },
        }
    }
}

/// What a byte image means: `Some` exactly where the bytes are one
/// complete encoding of a card list, with nothing left over.
pub open spec fn decode_spec(b: Seq<u8>) -> Option<Seq<CardView>> {
    match take_u64(b) {
        None => None,
        Some((n, rest)) => match take_cards(rest, n as nat) {
            None => None,
            Some((cs, rest2)) => if rest2.len() == 0 {
                Some(cs)
            } else {
                None
            },
        },
    }
}

// ---------------------------------------------------------------
// Machine bounds under which every part of a card list fits the
// length prefixes of the encoding.
// ---------------------------------------------------------------

pub open spec fn card_bounded(c: CardView) -> bool {
    &&& c.title.len() <= u64::MAX
    &&& c.content.len() <= u64::MAX
    &&& c.tags.len() <= u64::MAX
    &&& forall|i: int| 0 <= i < c.tags.len() ==> c.tags[i].len() <= u64::MAX
}

pub open spec fn cards_bounded(s: Seq<CardView>) -> bool {
    &&& s.len() <= u64::MAX
    &&& forall|i: int| 0 <= i < s.len() ==> card_bounded(#[trigger] s[i])
}

// ---------------------------------------------------------------
// Round trip: decoding an encoding yields what was encoded.
// ---------------------------------------------------------------

pub proof fn lemma_take_u64_round(v: u64, rest: Seq<u8>)
    ensures
        take_u64(u64_le(v) + rest) == Some((v, rest)),
{
    reveal(u64_le);
    reveal(u64_from);
    let b = u64_le(v) + rest;
    assert(b.take(8) =~= u64_le(v));
    assert(b.skip(8) =~= rest);
    lemma_u64_le_from(v);
    assert(u64_from(b) == u64_from(u64_le(v)));
}

pub proof fn lemma_take_u128_round(v: u128, rest: Seq<u8>)
    ensures
        take_u128(u128_le(v) + rest) == Some((v, rest)),
{
    reveal(u128_le);
    reveal(u128_from);
    let b = u128_le(v) + rest;
    assert(b.skip(16) =~= rest);
    lemma_u128_le_from(v);
    assert(u128_from(b) == u128_from(u128_le(v)));
}

pub proof fn lemma_take_bytes_round(s: Seq<u8>, rest: Seq<u8>)
    requires
        s.len() <= u64::MAX,
    ensures
        take_bytes(enc_bytes(s) + rest) == Some((s, rest)),
{
    let n: u64 = s.len() as u64;
    assert(enc_bytes(s) + rest =~= u64_le(n) + (s + rest));
    lemma_take_u64_round(n, s + rest);
    assert(n as nat == s.len());
    assert((s + rest).len() >= n as nat);
    assert((s + rest).take(n as int) =~= s);
    assert((s + rest).skip(n as int) =~= rest);
}

pub proof fn lemma_take_tags_round(ts: Seq<Seq<u8>>, rest: Seq<u8>)
    requires
        forall|i: int| 0 <= i < ts.len() ==> ts[i].len() <= u64::MAX,
    ensures
        take_tags(enc_tags(ts) + rest, ts.len()) == Some((ts, rest)),
    decreases ts.len(),
{
    if ts.len() == 0 {
        assert(enc_tags(ts) + rest =~= rest);
        assert(ts =~~= Seq::<Seq<u8>>::empty());
    } else {
        let t = ts[0];
        let tl = ts.skip(1);
        assert(enc_tags(ts) + rest =~= enc_bytes(t) + (enc_tags(tl) + rest));
        lemma_take_bytes_round(t, enc_tags(tl) + rest);
        lemma_take_tags_round(tl, rest);
        assert(seq![t] + tl =~~= ts);
    }
}

#[verifier::rlimit(100)]
pub proof fn lemma_take_card_round(c: CardView, rest: Seq<u8>)
    requires
        card_bounded(c),
    ensures
        take_card(enc_card(c) + rest) == Some((c, rest)),
{
    let nt: u64 = c.tags.len() as u64;
    let r1 = enc_bytes(c.title) + u64_le(nt) + enc_tags(c.tags) + enc_bytes(c.content) + u64_le(
        c.created_at as u64,
    ) + u64_le(c.updated_at as u64) + rest;
    assert(enc_card(c) + rest =~= u128_le(c.id) + r1);
    lemma_take_u128_round(c.id, r1);
    let r2 = u64_le(nt) + enc_tags(c.tags) + enc_bytes(c.content) + u64_le(c.created_at as u64)
        + u64_le(c.updated_at as u64) + rest;
    assert(r1 =~= enc_bytes(c.title) + r2);
    lemma_take_bytes_round(c.title, r2);
    let r3 = enc_tags(c.tags) + enc_bytes(c.content) + u64_le(c.created_at as u64) + u64_le(
        c.updated_at as u64,
    ) + rest;
    assert(r2 =~= u64_le(nt) + r3);
    lemma_take_u64_round(nt, r3);
    assert(nt as nat == c.tags.len());
    let r4 = enc_bytes(c.content) + u64_le(c.created_at as u64) + u64_le(c.updated_at as u64)
        + rest;
    assert(r3 =~= enc_tags(c.tags) + r4);
    lemma_take_tags_round(c.tags, r4);
    let r5 = u64_le(c.created_at as u64) + u64_le(c.updated_at as u64) + rest;
    assert(r4 =~= enc_bytes(c.content) + r5);
    lemma_take_bytes_round(c.content, r5);
    let r6 = u64_le(c.updated_at as u64) + rest;
    assert(r5 =~= u64_le(c.created_at as u64) + r6);
    lemma_take_u64_round(c.created_at as u64, r6);
    lemma_take_u64_round(c.updated_at as u64, rest);
    assert(r6 =~= u64_le(c.updated_at as u64) + rest);
    lemma_i64_u64_round(c.created_at);
    lemma_i64_u64_round(c.updated_at);
}

#[verifier::rlimit(100)]
pub proof fn lemma_take_cards_round(s: Seq<CardView>, rest: Seq<u8>)
    requires
        forall|i: int| 0 <= i < s.len() ==> card_bounded(#[trigger] s[i]),
    ensures
        take_cards(enc_list(s) + rest, s.len()) == Some((s, rest)),
    decreases s.len(),
{
    if s.len() == 0 {
        assert(enc_list(s) + rest =~= rest);
        assert(s =~~= Seq::<CardView>::empty());
    } else {
        let c = s[0];
        let tl = s.skip(1);
        assert(enc_list(s) + rest =~= enc_card(c) + (enc_list(tl) + rest));
        lemma_take_card_round(c, enc_list(tl) + rest);
        lemma_take_cards_round(tl, rest);
        assert(seq![c] + tl =~~= s);
    }
}

/// Round trip: for any bounded card list, decoding its encoding gives
/// back exactly the list, every field of every card included.
pub proof fn lemma_encode_decode(s: Seq<CardView>)
    requires
        cards_bounded(s),
    ensures
        decode_spec(encode_spec(s)) == Some(s),
{
    let n: u64 = s.len() as u64;
    assert(encode_spec(s) =~= u64_le(n) + enc_list(s));
    lemma_take_u64_round(n, enc_list(s));
    assert(enc_list(s) =~= enc_list(s) + Seq::<u8>::empty());
    lemma_take_cards_round(s, Seq::empty());
    assert(n as nat == s.len());
}

// ---------------------------------------------------------------
// Executable encoding
// ---------------------------------------------------------------

fn push_u64(out: &mut Vec<u8>, v: u64)
    ensures
        final(out)@ == old(out)@ + u64_le(v),
{
    let ghost pre = out@;
    out.push((v & 0xff) as u8);
    out.push(((v >> 8) & 0xff) as u8);
    out.push(((v >> 16) & 0xff) as u8);
    out.push(((v >> 24) & 0xff) as u8);
    out.push(((v >> 32) & 0xff) as u8);
    out.push(((v >> 40) & 0xff) as u8);
    out.push(((v >> 48) & 0xff) as u8);
    out.push(((v >> 56) & 0xff) as u8);
    proof {
        reveal(u64_le);
    }
    assert(out@ =~= pre + u64_le(v));
}

fn push_u128(out: &mut Vec<u8>, v: u128)
    ensures
        final(out)@ == old(out)@ + u128_le(v),
{
    let ghost pre = out@;
    out.push((v & 0xff) as u8);
    out.push(((v >> 8) & 0xff) as u8);
    out.push(((v >> 16) & 0xff) as u8);
    out.push(((v >> 24) & 0xff) as u8);
    out.push(((v >> 32) & 0xff) as u8);
    out.push(((v >> 40) & 0xff) as u8);
    out.push(((v >> 48) & 0xff) as u8);
    out.push(((v >> 56) & 0xff) as u8);
    out.push(((v >> 64) & 0xff) as u8);
    out.push(((v >> 72) & 0xff) as u8);
    out.push(((v >> 80) & 0xff) as u8);
    out.push(((v >> 88) & 0xff) as u8);
    out.push(((v >> 96) & 0xff) as u8);
    out.push(((v >> 104) & 0xff) as u8);
    out.push(((v >> 112) & 0xff) as u8);
    out.push(((v >> 120) & 0xff) as u8);
    proof {
        reveal(u128_le);
    }
    assert(out@ =~= pre + u128_le(v));
}

fn push_bytes(out: &mut Vec<u8>, s: &Vec<u8>)
    ensures
        final(out)@ == old(out)@ + enc_bytes(s@),
{
    let ghost pre = out@;
    push_u64(out, s.len() as u64);
    let mut i: usize = 0;
    while i < s.len()
        invariant
            i <= s.len(),
            out@ == pre + u64_le(s@.len() as u64) + s@.take(i as int),
        decreases s.len() - i,
    {
        out.push(s[i]);
        i += 1;
        assert(out@ =~= pre + u64_le(s@.len() as u64) + s@.take(i as int));
    }
    assert(out@ =~= pre + enc_bytes(s@));
}

proof fn lemma_enc_tags_snoc(ts: Seq<Seq<u8>>, t: Seq<u8>)
    ensures
        enc_tags(ts.push(t)) == enc_tags(ts) + enc_bytes(t),
    decreases ts.len(),
{
    reveal_with_fuel(enc_tags, 3);
    if ts.len() == 0 {
        assert(ts.push(t)[0] == t);
        assert(ts.push(t).skip(1) =~~= Seq::<Seq<u8>>::empty());
        assert(enc_tags(ts.push(t)) =~= enc_tags(ts) + enc_bytes(t));
    } else {
        assert(ts.push(t).skip(1) =~~= ts.skip(1).push(t));
        lemma_enc_tags_snoc(ts.skip(1), t);
        assert(ts.push(t)[0] == ts[0]);
        assert(enc_tags(ts.push(t)) =~= enc_tags(ts) + enc_bytes(t));
    }
}

#[verifier::rlimit(100)]
proof fn lemma_enc_list_snoc(s: Seq<CardView>, c: CardView)
    ensures
        enc_list(s.push(c)) == enc_list(s) + enc_card(c),
    decreases s.len(),
{
    reveal_with_fuel(enc_list, 3);
    if s.len() == 0 {
        assert(s.push(c)[0] == c);
        assert(s.push(c).skip(1) =~~= Seq::<CardView>::empty());
        assert(enc_list(s.push(c)) =~= enc_list(s) + enc_card(c));
    } else {
        assert(s.push(c).skip(1) =~~= s.skip(1).push(c));
        lemma_enc_list_snoc(s.skip(1), c);
        assert(s.push(c)[0] == s[0]);
        assert(enc_list(s.push(c)) =~= enc_list(s) + enc_card(c));
    }
}

fn push_card(out: &mut Vec<u8>, c: &Card)
    ensures
        final(out)@ == old(out)@ + enc_card(c@),
{
    let ghost pre = out@;
    push_u128(out, c.id.bits);
    push_bytes(out, &c.title);
    push_u64(out, c.tags.len() as u64);
    let ghost mid = out@;
    let mut i: usize = 0;
    while i < c.tags.len()
        invariant
            i <= c.tags.len(),
            out@ == mid + enc_tags(c@.tags.take(i as int)),
        decreases c.tags.len() - i,
    {
        let ghost done = c@.tags.take(i as int);
        proof {
            assert(c@.tags[i as int] =~= c.tags[i as int]@);
            lemma_enc_tags_snoc(done, c@.tags[i as int]);
            assert(done.push(c@.tags[i as int]) =~~= c@.tags.take(i as int + 1));
        }
        push_bytes(out, &c.tags[i]);
        i += 1;
    }
    proof {
        assert(c@.tags.take(c.tags.len() as int) =~~= c@.tags);
    }
    push_bytes(out, &c.content);
    push_u64(out, c.created_at as u64);
    push_u64(out, c.updated_at as u64);
    assert(out@ =~= pre + enc_card(c@));
}

/// Encode a card list into one byte image of the backing file.
pub fn encode_cards(cards: &Vec<Card>) -> (r: Vec<u8>)
    ensures
        r@ == encode_spec(cards.deep_view()),
{
    let ghost dv = cards.deep_view();
    let mut out: Vec<u8> = Vec::new();
    push_u64(&mut out, cards.len() as u64);
    let mut i: usize = 0;
    while i < cards.len()
        invariant
            i <= cards.len(),
            dv == cards.deep_view(),
            dv.len() == cards.len(),
            out@ == u64_le(dv.len() as u64) + enc_list(dv.take(i as int)),
        decreases cards.len() - i,
    {
        let ghost done = dv.take(i as int);
        proof {
            assert(dv[i as int] == cards[i as int]@);
            lemma_enc_list_snoc(done, dv[i as int]);
            assert(done.push(dv[i as int]) =~~= dv.take(i as int + 1));
        }
        push_card(&mut out, &cards[i]);
        i += 1;
    }
    proof {
        assert(dv.take(cards.len() as int) =~~= dv);
    }
    out
}

// ---------------------------------------------------------------
// Executable decoding
// ---------------------------------------------------------------

fn read_u64(b: &Vec<u8>, pos: usize) -> (r: Option<(u64, usize)>)
    requires
        pos <= b.len(),
    ensures
        match r {
            Some(p) => pos <= p.1 <= b.len() && take_u64(b@.skip(pos as int)) == Some(
                (p.0, b@.skip(p.1 as int)),
            ),
            None => take_u64(b@.skip(pos as int)) is None,
        },
{
    if b.len() - pos < 8 {
        return None;
    }
    let v = (b[pos] as u64) | ((b[pos + 1] as u64) << 8) | ((b[pos + 2] as u64) << 16) | ((b[pos
        + 3] as u64) << 24) | ((b[pos + 4] as u64) << 32) | ((b[pos + 5] as u64) << 40) | ((b[pos
        + 6] as u64) << 48) | ((b[pos + 7] as u64) << 56);
    proof {
        reveal(u64_from);
        let s = b@.skip(pos as int);
        assert(forall|k: int| 0 <= k < 8 ==> s[k] == b@[pos + k]);
        assert(v == u64_from(s));
        assert(s.skip(8) =~= b@.skip(pos + 8));
    }
    Some((v, pos + 8))
}

fn read_u128(b: &Vec<u8>, pos: usize) -> (r: Option<(u128, usize)>)
    requires
        pos <= b.len(),
    ensures
        match r {
            Some(p) => pos <= p.1 <= b.len() && take_u128(b@.skip(pos as int)) == Some(
                (p.0, b@.skip(p.1 as int)),
            ),
            None => take_u128(b@.skip(pos as int)) is None,
        },
{
    if b.len() - pos < 16 {
        return None;
    }
    let v = (b[pos] as u128) | ((b[pos + 1] as u128) << 8) | ((b[pos + 2] as u128) << 16) | ((b[pos
        + 3] as u128) << 24) | ((b[pos + 4] as u128) << 32) | ((b[pos + 5] as u128) << 40) | ((
    b[pos + 6] as u128) << 48) | ((b[pos + 7] as u128) << 56) | ((b[pos + 8] as u128) << 64) | ((
    b[pos + 9] as u128) << 72) | ((b[pos + 10] as u128) << 80) | ((b[pos + 11] as u128) << 88) | ((
    b[pos + 12] as u128) << 96) | ((b[pos + 13] as u128) << 104) | ((b[pos + 14] as u128) << 112)
        | ((b[pos + 15] as u128) << 120);
    proof {
        reveal(u128_from);
        let s = b@.skip(pos as int);
        assert(forall|k: int| 0 <= k < 16 ==> s[k] == b@[pos + k]);
        assert(v == u128_from(s));
        assert(s.skip(16) =~= b@.skip(pos + 16));
    }
    Some((v, pos + 16))
}

fn read_bytes(b: &Vec<u8>, pos: usize) -> (r: Option<(Vec<u8>, usize)>)
    requires
        pos <= b.len(),
    ensures
        match r {
            Some(p) => pos <= p.1 <= b.len() && take_bytes(b@.skip(pos as int)) == Some(
                (p.0@, b@.skip(p.1 as int)),
            ),
            None => take_bytes(b@.skip(pos as int)) is None,
        },
{
    let (n, p1) = match read_u64(b, pos) {
        None => {
            return None;
        },
        Some(p) => p,
    };
    let remaining = b.len() - p1;
    if n > remaining as u64 {
        proof {
            assert(b@.skip(p1 as int).len() < n as nat);
        }
        return None;
    }
    let m = n as usize;
    let mut s: Vec<u8> = Vec::new();
    let mut j: usize = 0;
    while j < m
        invariant
            j <= m,
            m == n,
            p1 + m <= b.len(),
            s@ == b@.skip(p1 as int).take(j as int),
        decreases m - j,
    {
        s.push(b[p1 + j]);
        j += 1;
        assert(s@ =~= b@.skip(p1 as int).take(j as int));
    }
    proof {
        assert(b@.skip(p1 as int).len() >= n as nat);
        assert(b@.skip(p1 as int).skip(n as int) =~= b@.skip(p1 + m));
    }
    Some((s, p1 + m))
}

fn read_tags(b: &Vec<u8>, pos: usize, n: u64) -> (r: Option<(Vec<Vec<u8>>, usize)>)
    requires
        pos <= b.len(),
    ensures
        match r {
            Some(p) => pos <= p.1 <= b.len() && take_tags(b@.skip(pos as int), n as nat) == Some(
                (p.0.deep_view(), b@.skip(p.1 as int)),
            ),
            None => take_tags(b@.skip(pos as int), n as nat) is None,
        },
{
    let mut acc: Vec<Vec<u8>> = Vec::new();
    let mut cur: usize = pos;
    let mut k: u64 = 0;
    while k < n
        invariant
            k <= n,
            pos <= cur <= b.len(),
            match take_tags(b@.skip(cur as int), (n - k) as nat) {
                None => take_tags(b@.skip(pos as int), n as nat) is None,
                Some(p) => take_tags(b@.skip(pos as int), n as nat) == Some(
                    (acc.deep_view() + p.0, p.1),
                ),
            },
        decreases n - k,
    {
        let ghost pre = acc.deep_view();
        match read_bytes(b, cur) {
            None => {
                proof {
                    assert(take_tags(b@.skip(cur as int), (n - k) as nat) is None);
                }
                return None;
            },
            Some((t, p2)) => {
                let ghost tv = t@;
                proof {
                    let m = (n - k) as nat;
                    assert(take_tags(b@.skip(cur as int), m) == (match take_tags(
                        b@.skip(p2 as int),
                        (m - 1) as nat,
                    ) {
                        None => None::<(Seq<Seq<u8>>, Seq<u8>)>,
                        Some((ts, rest2)) => Some((seq![tv] + ts, rest2)),
                    }));
                }
                acc.push(t);
                proof {
                    assert(acc.deep_view() =~~= pre.push(tv));
                    if let Some((ts3, r3)) = take_tags(b@.skip(p2 as int), (n - k - 1) as nat) {
                        assert(pre + (seq![tv] + ts3) =~~= acc.deep_view() + ts3);
                    }
                }
                cur = p2;
            },
        }
        k += 1;
    }
    proof {
        assert(take_tags(b@.skip(cur as int), 0) == Some(
            (Seq::<Seq<u8>>::empty(), b@.skip(cur as int)),
        ));
        assert(acc.deep_view() + Seq::<Seq<u8>>::empty() =~~= acc.deep_view());
    }
    Some((acc, cur))
}

fn read_card(b: &Vec<u8>, pos: usize) -> (r: Option<(Card, usize)>)
    requires
        pos <= b.len(),
    ensures
        match r {
            Some(p) => pos <= p.1 <= b.len() && take_card(b@.skip(pos as int)) == Some(
                (p.0@, b@.skip(p.1 as int)),
            ),
            None => take_card(b@.skip(pos as int)) is None,
        },
{
    let (id, p1) = match read_u128(b, pos) {
        None => {
            return None;
        },
        Some(p) => p,
    };
    let (title, p2) = match read_bytes(b, p1) {
        None => {
            return None;
        },
        Some(p) => p,
    };
    let (nt, p3) = match read_u64(b, p2) {
        None => {
            return None;
        },
        Some(p) => p,
    };
    let (tags, p4) = match read_tags(b, p3, nt) {
        None => {
            return None;
        },
        Some(p) => p,
    };
    let (content, p5) = match read_bytes(b, p4) {
        None => {
            return None;
        },
        Some(p) => p,
    };
    let (ca, p6) = match read_u64(b, p5) {
        None => {
            return None;
        },
        Some(p) => p,
    };
    let (ua, p7) = match read_u64(b, p6) {
        None => {
            return None;
        },
        Some(p) => p,
    };
    let card = Card {
        id: crate::card::CardId { bits: id },
        title,
        tags,
        content,
        created_at: ca as i64,
        updated_at: ua as i64,
    };
    Some((card, p7))
}

#[verifier::rlimit(100)]
fn read_cards(b: &Vec<u8>, pos: usize, n: u64) -> (r: Option<(Vec<Card>, usize)>)
    requires
        pos <= b.len(),
    ensures
        match r {
            Some(p) => pos <= p.1 <= b.len() && take_cards(b@.skip(pos as int), n as nat) == Some(
                (p.0.deep_view(), b@.skip(p.1 as int)),
            ),
            None => take_cards(b@.skip(pos as int), n as nat) is None,
        },
{
    let mut acc: Vec<Card> = Vec::new();
    let mut cur: usize = pos;
    let mut k: u64 = 0;
    while k < n
        invariant
            k <= n,
            pos <= cur <= b.len(),
            match take_cards(b@.skip(cur as int), (n - k) as nat) {
                None => take_cards(b@.skip(pos as int), n as nat) is None,
                Some(p) => take_cards(b@.skip(pos as int), n as nat) == Some(
                    (acc.deep_view() + p.0, p.1),
                ),
            },
        decreases n - k,
    {
        let ghost pre = acc.deep_view();
        match read_card(b, cur) {
            None => {
                proof {
                    assert(take_cards(b@.skip(cur as int), (n - k) as nat) is None);
                }
                return None;
            },
            Some((c, p2)) => {
                let ghost cv = c@;
                proof {
                    let m = (n - k) as nat;
                    assert(take_cards(b@.skip(cur as int), m) == (match take_cards(
                        b@.skip(p2 as int),
                        (m - 1) as nat,
                    ) {
                        None => None::<(Seq<CardView>, Seq<u8>)>,
                        Some((cs, rest2)) => Some((seq![cv] + cs, rest2)),
                    }));
                }
                acc.push(c);
                proof {
                    assert(acc.deep_view() =~~= pre.push(cv));
                    if let Some((cs3, r3)) = take_cards(b@.skip(p2 as int), (n - k - 1) as nat) {
                        assert(pre + (seq![cv] + cs3) =~~= acc.deep_view() + cs3);
                    }
                }
                cur = p2;
            },
        }
        k += 1;
    }
    proof {
        assert(take_cards(b@.skip(cur as int), 0) == Some(
            (Seq::<CardView>::empty(), b@.skip(cur as int)),
        ));
        assert(acc.deep_view() + Seq::<CardView>::empty() =~~= acc.deep_view());
    }
    Some((acc, cur))
}

/// Decode a byte image of the backing file. Returns `None` exactly
/// where the bytes are not one complete encoding of a card list.
pub fn decode_cards(b: &Vec<u8>) -> (r: Option<Vec<Card>>)
    ensures
        match r {
            Some(cards) => decode_spec(b@) == Some(cards.deep_view()),
            None => decode_spec(b@) is None,
        },
{
    proof {
        assert(b@.skip(0) =~= b@);
    }
    let (n, p1) = match read_u64(b, 0) {
        None => {
            return None;
        },
        Some(p) => p,
    };
    let (cards, p2) = match read_cards(b, p1, n) {
        None => {
            return None;
        },
        Some(p) => p,
    };
    if p2 < b.len() {
        proof {
            assert(b@.skip(p2 as int).len() > 0);
        }
        return None;
    }
    proof {
        assert(b@.skip(p2 as int).len() == 0);
    }
    Some(cards)
}

} // verus!
