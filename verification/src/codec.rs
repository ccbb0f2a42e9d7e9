//! Storage encoding of the state model.
//!
//! The persisted blob is a length-prefixed binary layout: the counter, then
//! the epics table, then the stories table.  Integers are little-endian
//! (ids two bytes, lengths eight), strings are a byte length followed by
//! UTF-8, a status is one tagged byte, and an epic additionally carries its
//! story-id list.  The decoder accepts exactly the encodings of well-formed
//! states and rejects everything else, so decoding a malformed blob fails
//! distinctly from a valid empty state.

use vstd::prelude::*;
use crate::db::DbError;
use crate::models::{DBState, DbIndex, Epic, EpicView, StateView, Status, Story, StoryView};
use crate::table::{Table, entries_view};
use vstd::utf8::{
    valid_utf8, encode_utf8, decode_utf8, encode_utf8_valid_utf8, encode_utf8_decode_utf8,
};

verus! {

/// 256 to the power `n`: the number of values `n` bytes can hold.
pub open spec fn pow256(n: nat) -> int
    decreases n,
{
    if n == 0 {
        1
    } else {
        256 * pow256((n - 1) as nat)
    }
}

/// `v` in `n` little-endian bytes (low byte first).
pub open spec fn le_bytes(v: int, n: nat) -> Seq<u8>
    decreases n,
{
    if n == 0 {
        Seq::empty()
    } else {
        seq![(v % 256) as u8] + le_bytes(v / 256, (n - 1) as nat)
    }
}

/// The value a little-endian byte sequence denotes.
pub open spec fn le_value(b: Seq<u8>) -> int
    decreases b.len(),
{
    if b.len() == 0 {
        0
    } else {
        b[0] + 256 * le_value(b.drop_first())
    }
}

pub proof fn lemma_pow256_values()
    ensures
        pow256(1) == 0x100,
        pow256(2) == 0x10000,
        pow256(8) == 0x10000000000000000,
{
    assert(pow256(0) == 1);
    assert(pow256(1) == 0x100);
    assert(pow256(2) == 0x10000);
    assert(pow256(3) == 0x1000000);
    assert(pow256(4) == 0x100000000);
    assert(pow256(5) == 0x10000000000);
    assert(pow256(6) == 0x1000000000000);
    assert(pow256(7) == 0x100000000000000);
    assert(pow256(8) == 0x10000000000000000);
}

pub proof fn lemma_le_bytes_len(v: int, n: nat)
    ensures
        le_bytes(v, n).len() == n,
    decreases n,
{
    if n > 0 {
        lemma_le_bytes_len(v / 256, (n - 1) as nat);
    }
}

pub proof fn lemma_le_value_bound(b: Seq<u8>)
    ensures
        0 <= le_value(b) < pow256(b.len()),
    decreases b.len(),
{
    if b.len() > 0 {
        lemma_le_value_bound(b.drop_first());
        assert(le_value(b) == b[0] + 256 * le_value(b.drop_first()));
        assert(b[0] < 256);
        assert(le_value(b) < 256 * (le_value(b.drop_first()) + 1)) by (nonlinear_arith)
            requires
                le_value(b) == b[0] + 256 * le_value(b.drop_first()),
                b[0] < 256,
                le_value(b.drop_first()) >= 0,
        ;
        assert(256 * (le_value(b.drop_first()) + 1) <= 256 * pow256((b.len() - 1) as nat))
            by (nonlinear_arith)
            requires
                le_value(b.drop_first()) + 1 <= pow256((b.len() - 1) as nat),
        ;
        assert(le_value(b) >= 0) by (nonlinear_arith)
            requires
                le_value(b) == b[0] + 256 * le_value(b.drop_first()),
                b[0] >= 0,
                le_value(b.drop_first()) >= 0,
        ;
    }
}

pub proof fn lemma_le_round_trip(v: int, n: nat)
    requires
        0 <= v < pow256(n),
    ensures
        le_value(le_bytes(v, n)) == v,
    decreases n,
{
    if n > 0 {
        let lo = v % 256;
        let hi = v / 256;
        vstd::arithmetic::div_mod::lemma_fundamental_div_mod(v, 256);
        vstd::arithmetic::div_mod::lemma_mod_bound(v, 256);
        vstd::arithmetic::div_mod::lemma_div_pos_is_pos(v, 256);
        assert(0 <= lo < 256 && v == 256 * hi + lo && hi >= 0);
        assert(hi < pow256((n - 1) as nat)) by (nonlinear_arith)
            requires
                v < pow256(n),
                pow256(n) == 256 * pow256((n - 1) as nat),
                v == 256 * hi + lo,
                0 <= lo < 256,
        ;
        lemma_le_round_trip(hi, (n - 1) as nat);
        lemma_le_bytes_len(hi, (n - 1) as nat);
        let b = le_bytes(v, n);
        assert(b == seq![(lo) as u8] + le_bytes(hi, (n - 1) as nat));
        assert(b.drop_first() =~= le_bytes(hi, (n - 1) as nat));
        assert(b[0] == lo);
    }
}

/// Parses an `n`-byte little-endian integer; result plus bytes consumed.
pub open spec fn sp_le(b: Seq<u8>, n: nat) -> Option<(int, int)> {
    if b.len() >= n {
        Some((le_value(b.take(n as int)), n as int))
    } else {
        None
    }
}

pub proof fn lemma_sp_le(v: int, n: nat, rest: Seq<u8>)
    requires
        0 <= v < pow256(n),
    ensures
        sp_le(le_bytes(v, n) + rest, n) == Some((v, n as int)),
    decreases n,
{
    lemma_le_bytes_len(v, n);
    assert((le_bytes(v, n) + rest).take(n as int) =~= le_bytes(v, n));
    lemma_le_round_trip(v, n);
}

/// One-byte tag of a status.
pub open spec fn status_tag(st: Status) -> u8 {
    match st {
        Status::Open => 0,
        Status::InProgress => 1,
        Status::Resolved => 2,
        Status::Closed => 3,
    }
}

pub open spec fn sp_status(b: Seq<u8>) -> Option<(Status, int)> {
    if b.len() < 1 {
        None
    } else if b[0] == 0 {
        Some((Status::Open, 1))
    } else if b[0] == 1 {
        Some((Status::InProgress, 1))
    } else if b[0] == 2 {
        Some((Status::Resolved, 1))
    } else if b[0] == 3 {
        Some((Status::Closed, 1))
    } else {
        None
    }
}

pub open spec fn enc_status(st: Status) -> Seq<u8> {
    seq![status_tag(st)]
}

pub proof fn lemma_sp_status(st: Status, rest: Seq<u8>)
    ensures
        sp_status(enc_status(st) + rest) == Some((st, 1int)),
{
    assert((enc_status(st) + rest)[0] == status_tag(st));
}

/// A string is its UTF-8 byte length (eight bytes) followed by the bytes.
pub open spec fn enc_string(s: Seq<char>) -> Seq<u8> {
    le_bytes(encode_utf8(s).len() as int, 8) + encode_utf8(s)
}

pub open spec fn sp_string(b: Seq<u8>) -> Option<(Seq<char>, int)> {
    match sp_le(b, 8) {
        None => None,
        Some((bl, c)) => if bl + c <= b.len() && valid_utf8(b.subrange(c, c + bl)) {
            Some((decode_utf8(b.subrange(c, c + bl)), c + bl))
        } else {
            None
        },
    }
}

/// The string fits the eight-byte length field (always true of a string held
/// in memory).
pub open spec fn str_encodable(s: Seq<char>) -> bool {
    encode_utf8(s).len() < pow256(8)
}

pub proof fn lemma_sp_string(s: Seq<char>, rest: Seq<u8>)
    requires
        str_encodable(s),
    ensures
        enc_string(s).len() == 8 + encode_utf8(s).len(),
        sp_string(enc_string(s) + rest) == Some((s, enc_string(s).len() as int)),
{
    let bs = encode_utf8(s);
    let bl = bs.len() as int;
    lemma_le_bytes_len(bl, 8);
    let b = enc_string(s) + rest;
    assert(b =~= le_bytes(bl, 8) + (bs + rest));
    lemma_sp_le(bl, 8, bs + rest);
    assert(b.subrange(8, 8 + bl) =~= bs);
    encode_utf8_valid_utf8(s);
    encode_utf8_decode_utf8(s);
}

/// A story-id list, two bytes per id, count known from context.
pub open spec fn enc_ids(ids: Seq<DbIndex>) -> Seq<u8>
    decreases ids.len(),
{
    if ids.len() == 0 {
        Seq::empty()
    } else {
        le_bytes(ids[0] as int, 2) + enc_ids(ids.drop_first())
    }
}

pub open spec fn sp_ids(b: Seq<u8>, m: nat) -> Option<(Seq<DbIndex>, int)>
    decreases m,
{
    if m == 0 {
        Some((Seq::empty(), 0))
    } else {
        match sp_le(b, 2) {
            None => None,
            Some((v, c1)) => match sp_ids(b.skip(c1), (m - 1) as nat) {
                None => None,
                Some((ids, c2)) => Some((seq![v as DbIndex] + ids, c1 + c2)),
            },
        }
    }
}

pub proof fn lemma_sp_ids(ids: Seq<DbIndex>, rest: Seq<u8>)
    ensures
        enc_ids(ids).len() == 2 * ids.len(),
        sp_ids(enc_ids(ids) + rest, ids.len() as nat) == Some((ids, 2 * ids.len() as int)),
    decreases ids.len(),
{
    lemma_pow256_values();
    if ids.len() == 0 {
        assert(enc_ids(ids) + rest =~= rest);
    } else {
        let x = ids[0];
        lemma_le_bytes_len(x as int, 2);
        let tail = ids.drop_first();
        let b = enc_ids(ids) + rest;
        assert(b =~= le_bytes(x as int, 2) + (enc_ids(tail) + rest));
        lemma_sp_le(x as int, 2, enc_ids(tail) + rest);
        assert(b.skip(2) =~= enc_ids(tail) + rest);
        lemma_sp_ids(tail, rest);
        assert(seq![(x as int) as DbIndex] + tail =~= ids);
    }
}

/// An epic: name, description, status, list length, story ids.
pub open spec fn enc_epic(e: EpicView) -> Seq<u8> {
    enc_string(e.name) + enc_string(e.description) + enc_status(e.status) + le_bytes(
        e.stories.len() as int,
        8,
    ) + enc_ids(e.stories)
}

pub open spec fn sp_epic(b: Seq<u8>) -> Option<(EpicView, int)> {
    match sp_string(b) {
        None => None,
        Some((name, c1)) => match sp_string(b.skip(c1)) {
            None => None,
            Some((desc, c2)) => match sp_status(b.skip(c1 + c2)) {
                None => None,
                Some((st, c3)) => match sp_le(b.skip(c1 + c2 + c3), 8) {
                    None => None,
                    Some((m, c4)) => match sp_ids(b.skip(c1 + c2 + c3 + c4), m as nat) {
                        None => None,
                        Some((ids, c5)) => Some(
                            (
                                EpicView { name: name, description: desc, status: st, stories: ids },
                                c1 + c2 + c3 + c4 + c5,
                            ),
                        ),
                    },
                },
            },
        },
    }
}

pub open spec fn epic_encodable(e: EpicView) -> bool {
    str_encodable(e.name) && str_encodable(e.description) && e.stories.len() < pow256(8)
}

#[verifier::rlimit(50)]
pub proof fn lemma_sp_epic(e: EpicView, rest: Seq<u8>)
    requires
        epic_encodable(e),
    ensures
        sp_epic(enc_epic(e) + rest) == Some((e, enc_epic(e).len() as int)),
    decreases e.stories.len(),
{
    let b = enc_epic(e) + rest;
    let r1 = enc_string(e.description) + (enc_status(e.status) + (le_bytes(
        e.stories.len() as int,
        8,
    ) + (enc_ids(e.stories) + rest)));
    assert(b =~= enc_string(e.name) + r1);
    lemma_sp_string(e.name, r1);
    let c1 = enc_string(e.name).len() as int;
    let r2 = enc_status(e.status) + (le_bytes(e.stories.len() as int, 8) + (enc_ids(e.stories)
        + rest));
    assert(b.skip(c1) =~= enc_string(e.description) + r2);
    lemma_sp_string(e.description, r2);
    let c2 = enc_string(e.description).len() as int;
    let r3 = le_bytes(e.stories.len() as int, 8) + (enc_ids(e.stories) + rest);
    assert(b.skip(c1 + c2) =~= enc_status(e.status) + r3);
    lemma_sp_status(e.status, r3);
    let r4 = enc_ids(e.stories) + rest;
    assert(b.skip(c1 + c2 + 1) =~= le_bytes(e.stories.len() as int, 8) + r4);
    lemma_sp_le(e.stories.len() as int, 8, r4);
    lemma_le_bytes_len(e.stories.len() as int, 8);
    assert(b.skip(c1 + c2 + 1 + 8) =~= enc_ids(e.stories) + rest);
    lemma_sp_ids(e.stories, rest);
    assert(sp_epic(b) matches Some(p) && p.0 =~= e);
}

/// A story: name, description, status.
pub open spec fn enc_story(s: StoryView) -> Seq<u8> {
    enc_string(s.name) + enc_string(s.description) + enc_status(s.status)
}

pub open spec fn sp_story(b: Seq<u8>) -> Option<(StoryView, int)> {
    match sp_string(b) {
        None => None,
        Some((name, c1)) => match sp_string(b.skip(c1)) {
            None => None,
            Some((desc, c2)) => match sp_status(b.skip(c1 + c2)) {
                None => None,
                Some((st, c3)) => Some(
                    (StoryView { name: name, description: desc, status: st }, c1 + c2 + c3),
                ),
            },
        },
    }
}

pub open spec fn story_encodable(s: StoryView) -> bool {
    str_encodable(s.name) && str_encodable(s.description)
}

pub proof fn lemma_sp_story(s: StoryView, rest: Seq<u8>)
    requires
        story_encodable(s),
    ensures
        sp_story(enc_story(s) + rest) == Some((s, enc_story(s).len() as int)),
{
    let b = enc_story(s) + rest;
    let r1 = enc_string(s.description) + (enc_status(s.status) + rest);
    assert(b =~= enc_string(s.name) + r1);
    lemma_sp_string(s.name, r1);
    let c1 = enc_string(s.name).len() as int;
    let r2 = enc_status(s.status) + rest;
    assert(b.skip(c1) =~= enc_string(s.description) + r2);
    lemma_sp_string(s.description, r2);
    let c2 = enc_string(s.description).len() as int;
    assert(b.skip(c1 + c2) =~= enc_status(s.status) + rest);
    lemma_sp_status(s.status, rest);
    assert(sp_story(b) matches Some(p) && p.0 =~= s);
}

/// An entry table: each entry is the two-byte key then the value; the entry
/// count comes first, from the state layout.
pub open spec fn enc_epic_entries(s: Seq<(DbIndex, EpicView)>) -> Seq<u8>
    decreases s.len(),
{
    if s.len() == 0 {
        Seq::empty()
    } else {
        le_bytes(s[0].0 as int, 2) + enc_epic(s[0].1) + enc_epic_entries(s.drop_first())
    }
}

pub open spec fn sp_epic_entries(b: Seq<u8>, m: nat) -> Option<(Seq<(DbIndex, EpicView)>, int)>
    decreases m,
{
    if m == 0 {
        Some((Seq::empty(), 0))
    } else {
        match sp_le(b, 2) {
            None => None,
            Some((k, c1)) => match sp_epic(b.skip(c1)) {
                None => None,
                Some((e, c2)) => match sp_epic_entries(b.skip(c1 + c2), (m - 1) as nat) {
                    None => None,
                    Some((tail, c3)) => Some((seq![(k as DbIndex, e)] + tail, c1 + c2 + c3)),
                },
            },
        }
    }
}

pub proof fn lemma_sp_epic_entries(s: Seq<(DbIndex, EpicView)>, rest: Seq<u8>)
    requires
        forall|i: int| 0 <= i < s.len() ==> epic_encodable(#[trigger] s[i].1),
    ensures
        sp_epic_entries(enc_epic_entries(s) + rest, s.len() as nat) == Some(
            (s, enc_epic_entries(s).len() as int),
        ),
    decreases s.len(),
{
    lemma_pow256_values();
    if s.len() == 0 {
        assert(enc_epic_entries(s) + rest =~= rest);
    } else {
        let (k, e) = s[0];
        let tail = s.drop_first();
        lemma_le_bytes_len(k as int, 2);
        let b = enc_epic_entries(s) + rest;
        let r1 = enc_epic(e) + (enc_epic_entries(tail) + rest);
        assert(b =~= le_bytes(k as int, 2) + r1);
        lemma_sp_le(k as int, 2, r1);
        assert(b.skip(2) =~= enc_epic(e) + (enc_epic_entries(tail) + rest));
        lemma_sp_epic(e, enc_epic_entries(tail) + rest);
        let c2 = enc_epic(e).len() as int;
        assert(b.skip(2 + c2) =~= enc_epic_entries(tail) + rest);
        assert forall|i: int| 0 <= i < tail.len() implies epic_encodable(#[trigger] tail[i].1) by {
            assert(tail[i] == s[i + 1]);
        }
        lemma_sp_epic_entries(tail, rest);
        assert(seq![((k as int) as DbIndex, e)] + tail =~= s);
    }
}

pub open spec fn enc_story_entries(s: Seq<(DbIndex, StoryView)>) -> Seq<u8>
    decreases s.len(),
{
    if s.len() == 0 {
        Seq::empty()
    } else {
        le_bytes(s[0].0 as int, 2) + enc_story(s[0].1) + enc_story_entries(s.drop_first())
    }
}

pub open spec fn sp_story_entries(b: Seq<u8>, m: nat) -> Option<(Seq<(DbIndex, StoryView)>, int)>
    decreases m,
{
    if m == 0 {
        Some((Seq::empty(), 0))
    } else {
        match sp_le(b, 2) {
            None => None,
            Some((k, c1)) => match sp_story(b.skip(c1)) {
                None => None,
                Some((st, c2)) => match sp_story_entries(b.skip(c1 + c2), (m - 1) as nat) {
                    None => None,
                    Some((tail, c3)) => Some((seq![(k as DbIndex, st)] + tail, c1 + c2 + c3)),
                },
            },
        }
    }
}

pub proof fn lemma_sp_story_entries(s: Seq<(DbIndex, StoryView)>, rest: Seq<u8>)
    requires
        forall|i: int| 0 <= i < s.len() ==> story_encodable(#[trigger] s[i].1),
    ensures
        sp_story_entries(enc_story_entries(s) + rest, s.len() as nat) == Some(
            (s, enc_story_entries(s).len() as int),
        ),
    decreases s.len(),
{
    lemma_pow256_values();
    if s.len() == 0 {
        assert(enc_story_entries(s) + rest =~= rest);
    } else {
        let (k, st) = s[0];
        let tail = s.drop_first();
        lemma_le_bytes_len(k as int, 2);
        let b = enc_story_entries(s) + rest;
        let r1 = enc_story(st) + (enc_story_entries(tail) + rest);
        assert(b =~= le_bytes(k as int, 2) + r1);
        lemma_sp_le(k as int, 2, r1);
        assert(b.skip(2) =~= enc_story(st) + (enc_story_entries(tail) + rest));
        lemma_sp_story(st, enc_story_entries(tail) + rest);
        let c2 = enc_story(st).len() as int;
        assert(b.skip(2 + c2) =~= enc_story_entries(tail) + rest);
        assert forall|i: int| 0 <= i < tail.len() implies story_encodable(
            #[trigger] tail[i].1,
        ) by {
            assert(tail[i] == s[i + 1]);
        }
        lemma_sp_story_entries(tail, rest);
        assert(seq![((k as int) as DbIndex, st)] + tail =~= s);
    }
}

/// The whole state: counter, epic count and entries, story count and entries.
pub open spec fn enc_state(v: StateView) -> Seq<u8> {
    le_bytes(v.last_item_id as int, 2) + le_bytes(v.epics.len() as int, 8) + enc_epic_entries(
        v.epics,
    ) + le_bytes(v.stories.len() as int, 8) + enc_story_entries(v.stories)
}

/// What the decoder accepts: a complete, exactly consumed encoding of a
/// well-formed state.
pub open spec fn sp_state(b: Seq<u8>) -> Option<StateView> {
    match sp_le(b, 2) {
        None => None,
        Some((last, c1)) => match sp_le(b.skip(c1), 8) {
            None => None,
            Some((ne, c2)) => match sp_epic_entries(b.skip(c1 + c2), ne as nat) {
                None => None,
                Some((es, c3)) => match sp_le(b.skip(c1 + c2 + c3), 8) {
                    None => None,
                    Some((ns, c4)) => match sp_story_entries(
                        b.skip(c1 + c2 + c3 + c4),
                        ns as nat,
                    ) {
                        None => None,
                        Some((ss, c5)) => if c1 + c2 + c3 + c4 + c5 == b.len() {
                            let v = StateView {
                                last_item_id: last as DbIndex,
                                epics: es,
                                stories: ss,
                            };
                            if v.wf() {
                                Some(v)
                            } else {
                                None
                            }
                        } else {
                            None
                        },
                    },
                },
            },
        },
    }
}

/// Every size in the state fits its length field (always true of a state
/// held in memory).
pub open spec fn state_encodable(v: StateView) -> bool {
    &&& v.epics.len() < pow256(8)
    &&& v.stories.len() < pow256(8)
    &&& forall|i: int| 0 <= i < v.epics.len() ==> epic_encodable(#[trigger] v.epics[i].1)
    &&& forall|i: int| 0 <= i < v.stories.len() ==> story_encodable(#[trigger] v.stories[i].1)
}

/// Round trip: decoding the encoding of any well-formed state yields exactly
/// that state.
pub proof fn lemma_state_round_trip(v: StateView)
    requires
        v.wf(),
        state_encodable(v),
    ensures
        sp_state(enc_state(v)) == Some(v),
{
    lemma_pow256_values();
    let b = enc_state(v);
    lemma_le_bytes_len(v.last_item_id as int, 2);
    lemma_le_bytes_len(v.epics.len() as int, 8);
    lemma_le_bytes_len(v.stories.len() as int, 8);
    let r1 = le_bytes(v.epics.len() as int, 8) + (enc_epic_entries(v.epics) + (le_bytes(
        v.stories.len() as int,
        8,
    ) + enc_story_entries(v.stories)));
    assert(b =~= le_bytes(v.last_item_id as int, 2) + r1);
    lemma_sp_le(v.last_item_id as int, 2, r1);
    let r2 = enc_epic_entries(v.epics) + (le_bytes(v.stories.len() as int, 8)
        + enc_story_entries(v.stories));
    assert(b.skip(2) =~= le_bytes(v.epics.len() as int, 8) + r2);
    lemma_sp_le(v.epics.len() as int, 8, r2);
    let r3 = le_bytes(v.stories.len() as int, 8) + enc_story_entries(v.stories);
    assert(b.skip(2int + 8) =~= enc_epic_entries(v.epics) + r3);
    lemma_sp_epic_entries(v.epics, r3);
    let c3 = enc_epic_entries(v.epics).len() as int;
    assert(b.skip(2int + 8 + c3) =~= le_bytes(v.stories.len() as int, 8) + enc_story_entries(
        v.stories,
    ));
    lemma_sp_le(v.stories.len() as int, 8, enc_story_entries(v.stories));
    assert(b.skip(2int + 8 + c3 + 8) =~= enc_story_entries(v.stories) + Seq::<u8>::empty());
    lemma_sp_story_entries(v.stories, Seq::<u8>::empty());
    let c5 = enc_story_entries(v.stories).len() as int;
    assert(b.len() == 2int + 8 + c3 + 8 + c5);
    assert(sp_state(b) matches Some(w) && w =~~= v);
}

pub proof fn lemma_enc_ids_push(ids: Seq<DbIndex>, x: DbIndex)
    ensures
        enc_ids(ids.push(x)) == enc_ids(ids) + le_bytes(x as int, 2),
    decreases ids.len(),
{
    if ids.len() == 0 {
        lemma_le_bytes_len(x as int, 2);
        assert(ids.push(x)[0] == x);
        assert(ids.push(x).drop_first() =~= Seq::<DbIndex>::empty());
        assert(enc_ids(ids.push(x)) == le_bytes(x as int, 2) + enc_ids(Seq::<DbIndex>::empty()));
        assert(enc_ids(ids.push(x)) =~= enc_ids(ids) + le_bytes(x as int, 2));
    } else {
        assert(ids.push(x)[0] == ids[0]);
        assert(ids.push(x).drop_first() =~= ids.drop_first().push(x));
        lemma_enc_ids_push(ids.drop_first(), x);
        lemma_le_bytes_len(ids[0] as int, 2);
        lemma_le_bytes_len(x as int, 2);
        assert(enc_ids(ids.push(x)) == le_bytes(ids[0] as int, 2) + enc_ids(
            ids.drop_first().push(x),
        ));
        assert(enc_ids(ids.push(x)) =~= enc_ids(ids) + le_bytes(x as int, 2));
    }
}

pub proof fn lemma_enc_epic_entries_push(s: Seq<(DbIndex, EpicView)>, p: (DbIndex, EpicView))
    ensures
        enc_epic_entries(s.push(p)) == enc_epic_entries(s) + (le_bytes(p.0 as int, 2) + enc_epic(
            p.1,
        )),
    decreases s.len(),
{
    if s.len() == 0 {
        lemma_le_bytes_len(p.0 as int, 2);
        assert(s.push(p)[0] == p);
        assert(s.push(p).drop_first() =~= Seq::<(DbIndex, EpicView)>::empty());
        assert(enc_epic_entries(s.push(p)) == le_bytes(p.0 as int, 2) + enc_epic(p.1)
            + enc_epic_entries(Seq::<(DbIndex, EpicView)>::empty()));
        assert(enc_epic_entries(s.push(p)) =~= enc_epic_entries(s) + (le_bytes(p.0 as int, 2)
            + enc_epic(p.1)));
    } else {
        assert(s.push(p)[0] == s[0]);
        assert(s.push(p).drop_first() =~= s.drop_first().push(p));
        lemma_enc_epic_entries_push(s.drop_first(), p);
        lemma_le_bytes_len(s[0].0 as int, 2);
        lemma_le_bytes_len(p.0 as int, 2);
        assert(enc_epic_entries(s.push(p)) == le_bytes(s[0].0 as int, 2) + enc_epic(s[0].1)
            + enc_epic_entries(s.drop_first().push(p)));
        assert(enc_epic_entries(s.push(p)) =~= enc_epic_entries(s) + (le_bytes(p.0 as int, 2)
            + enc_epic(p.1)));
    }
}

pub proof fn lemma_enc_story_entries_push(s: Seq<(DbIndex, StoryView)>, p: (DbIndex, StoryView))
    ensures
        enc_story_entries(s.push(p)) == enc_story_entries(s) + (le_bytes(p.0 as int, 2)
            + enc_story(p.1)),
    decreases s.len(),
{
    if s.len() == 0 {
        lemma_le_bytes_len(p.0 as int, 2);
        assert(s.push(p)[0] == p);
        assert(s.push(p).drop_first() =~= Seq::<(DbIndex, StoryView)>::empty());
        assert(enc_story_entries(s.push(p)) == le_bytes(p.0 as int, 2) + enc_story(p.1)
            + enc_story_entries(Seq::<(DbIndex, StoryView)>::empty()));
        assert(enc_story_entries(s.push(p)) =~= enc_story_entries(s) + (le_bytes(p.0 as int, 2)
            + enc_story(p.1)));
    } else {
        assert(s.push(p)[0] == s[0]);
        assert(s.push(p).drop_first() =~= s.drop_first().push(p));
        lemma_enc_story_entries_push(s.drop_first(), p);
        lemma_le_bytes_len(s[0].0 as int, 2);
        lemma_le_bytes_len(p.0 as int, 2);
        assert(enc_story_entries(s.push(p)) == le_bytes(s[0].0 as int, 2) + enc_story(s[0].1)
            + enc_story_entries(s.drop_first().push(p)));
        assert(enc_story_entries(s.push(p)) =~= enc_story_entries(s) + (le_bytes(p.0 as int, 2)
            + enc_story(p.1)));
    }
}

/// Appends `v` as `n` little-endian bytes.
fn push_le(out: &mut Vec<u8>, v: u64, n: usize)
    ensures
        final (out)@ == old(out)@ + le_bytes(v as int, n as nat),
{
    let mut x = v;
    let mut i: usize = 0;
    while i < n
        invariant
            0 <= i <= n,
            old(out)@ + le_bytes(v as int, n as nat) == out@ + le_bytes(x as int, (n - i) as nat),
        decreases n - i,
    {
        let ghost prev = out@;
        let ghost xprev = x as int;
        let b = (x % 256) as u8;
        out.push(b);
        x = x / 256;
        proof {
            assert(le_bytes(xprev, (n - i) as nat) == seq![(xprev % 256) as u8] + le_bytes(
                xprev / 256,
                (n - i - 1) as nat,
            ));
            assert(prev + le_bytes(xprev, (n - i) as nat) =~= out@ + le_bytes(
                x as int,
                (n - i - 1) as nat,
            ));
        }
        i += 1;
    }
    proof {
        assert(out@ + le_bytes(x as int, 0) =~= out@);
    }
}

/// Appends the encoding of a string.
fn push_str(out: &mut Vec<u8>, s: &String)
    ensures
        final (out)@ == old(out)@ + enc_string(s@),
        str_encodable(s@),
{
    let bytes: &[u8] = s.as_str().as_bytes();
    let bl = bytes.len();
    proof {
        lemma_pow256_values();
        assert(bytes@ == encode_utf8(s@));
        assert(bl as u64 as int == bl as int);
    }
    push_le(out, bl as u64, 8);
    let ghost base = out@;
    let mut i: usize = 0;
    proof {
        assert(base + encode_utf8(s@).take(0) =~= base);
    }
    while i < bl
        invariant
            0 <= i <= bl,
            bl == bytes@.len(),
            bytes@ == encode_utf8(s@),
            base == old(out)@ + le_bytes(encode_utf8(s@).len() as int, 8),
            out@ == base + encode_utf8(s@).take(i as int),
        decreases bl - i,
    {
        out.push(bytes[i]);
        proof {
            assert(encode_utf8(s@).take(i as int).push(bytes@[i as int]) =~= encode_utf8(
                s@,
            ).take(i as int + 1));
        }
        i += 1;
    }
    proof {
        assert(encode_utf8(s@).take(bl as int) =~= encode_utf8(s@));
        assert(out@ =~= old(out)@ + enc_string(s@));
    }
}

/// Appends the one-byte status tag.
fn push_status(out: &mut Vec<u8>, st: Status)
    ensures
        final (out)@ == old(out)@ + enc_status(st),
{
    let tag: u8 = match st {
        Status::Open => 0,
        Status::InProgress => 1,
        Status::Resolved => 2,
        Status::Closed => 3,
    };
    out.push(tag);
    proof {
        assert(out@ =~= old(out)@ + enc_status(st));
    }
}

/// Appends the encoding of a story.
fn push_story(out: &mut Vec<u8>, s: &Story)
    ensures
        final (out)@ == old(out)@ + enc_story(s@),
        story_encodable(s@),
{
    push_str(out, &s.name);
    push_str(out, &s.description);
    push_status(out, s.status);
    proof {
        assert(out@ =~= old(out)@ + enc_story(s@));
    }
}

/// Appends the encoding of an epic.
fn push_epic(out: &mut Vec<u8>, e: &Epic)
    ensures
        final (out)@ == old(out)@ + enc_epic(e@),
        epic_encodable(e@),
{
    push_str(out, &e.name);
    push_str(out, &e.description);
    push_status(out, e.status);
    let m = e.stories.len();
    proof {
        lemma_pow256_values();
        assert(m as u64 as int == m as int);
    }
    push_le(out, m as u64, 8);
    let ghost base = out@;
    let mut i: usize = 0;
    proof {
        assert(base + enc_ids(e.stories@.take(0)) =~= base);
    }
    while i < m
        invariant
            0 <= i <= m,
            m == e.stories@.len(),
            out@ == base + enc_ids(e.stories@.take(i as int)),
        decreases m - i,
    {
        push_le(out, e.stories[i] as u64, 2);
        proof {
            lemma_enc_ids_push(e.stories@.take(i as int), e.stories@[i as int]);
            assert(e.stories@.take(i as int).push(e.stories@[i as int]) =~= e.stories@.take(
                i as int + 1,
            ));
        }
        i += 1;
    }
    proof {
        assert(e.stories@.take(m as int) =~= e.stories@);
        assert(out@ =~= old(out)@ + enc_epic(e@));
    }
}

/// Encodes the whole state as the storage blob.
pub fn encode_state(state: &DBState) -> (r: Vec<u8>)
    ensures
        r@ == enc_state(state@),
        state_encodable(state@),
{
    let mut out: Vec<u8> = Vec::new();
    proof {
        lemma_pow256_values();
    }
    push_le(&mut out, state.last_item_id as u64, 2);
    let ne = state.epics.entries.len();
    proof {
        assert(ne as u64 as int == ne as int);
    }
    push_le(&mut out, ne as u64, 8);
    let ghost base_e = out@;
    let mut i: usize = 0;
    proof {
        assert(base_e + enc_epic_entries(state@.epics.take(0)) =~= base_e);
    }
    while i < ne
        invariant
            0 <= i <= ne,
            ne == state.epics.entries@.len(),
            out@ == base_e + enc_epic_entries(state@.epics.take(i as int)),
            forall|j: int| 0 <= j < i ==> epic_encodable(#[trigger] state@.epics[j].1),
        decreases ne - i,
    {
        let entry = &state.epics.entries[i];
        proof {
            assert(state@.epics[i as int] == (entry.0, entry.1@));
        }
        push_le(&mut out, entry.0 as u64, 2);
        push_epic(&mut out, &entry.1);
        proof {
            lemma_enc_epic_entries_push(state@.epics.take(i as int), state@.epics[i as int]);
            assert(state@.epics.take(i as int).push(state@.epics[i as int]) =~= state@.epics.take(
                i as int + 1,
            ));
        }
        i += 1;
    }
    proof {
        assert(state@.epics.take(ne as int) =~= state@.epics);
    }
    let ns = state.stories.entries.len();
    proof {
        assert(ns as u64 as int == ns as int);
    }
    push_le(&mut out, ns as u64, 8);
    let ghost base_s = out@;
    let mut k: usize = 0;
    proof {
        assert(base_s + enc_story_entries(state@.stories.take(0)) =~= base_s);
    }
    while k < ns
        invariant
            0 <= k <= ns,
            ns == state.stories.entries@.len(),
            out@ == base_s + enc_story_entries(state@.stories.take(k as int)),
            forall|j: int| 0 <= j < k ==> story_encodable(#[trigger] state@.stories[j].1),
        decreases ns - k,
    {
        let entry = &state.stories.entries[k];
        proof {
            assert(state@.stories[k as int] == (entry.0, entry.1@));
        }
        push_le(&mut out, entry.0 as u64, 2);
        push_story(&mut out, &entry.1);
        proof {
            lemma_enc_story_entries_push(
                state@.stories.take(k as int),
                state@.stories[k as int],
            );
            assert(state@.stories.take(k as int).push(state@.stories[k as int])
                =~= state@.stories.take(k as int + 1));
        }
        k += 1;
    }
    proof {
        assert(state@.stories.take(ns as int) =~= state@.stories);
        assert(out@ =~= enc_state(state@));
    }
    out
}

pub proof fn lemma_pow256_pos(n: nat)
    ensures
        pow256(n) >= 1,
    decreases n,
{
    if n > 0 {
        lemma_pow256_pos((n - 1) as nat);
    }
}

pub proof fn lemma_pow256_mono(a: nat, b: nat)
    requires
        a <= b,
    ensures
        pow256(a) <= pow256(b),
    decreases b,
{
    if a < b {
        lemma_pow256_mono(a, (b - 1) as nat);
        lemma_pow256_pos((b - 1) as nat);
    }
}

/// Relies on `String::from_utf8`: `Ok` exactly on valid UTF-8 input,
/// returning the string whose UTF-8 encoding is that input.
#[verifier::external_body]
fn string_from_utf8(v: Vec<u8>) -> (r: Option<String>)
    ensures
        r is Some <==> valid_utf8(v@),
        r matches Some(s) ==> encode_utf8(s@) == v@,
{
    match String::from_utf8(v) {
        Ok(s) => Some(s),
        Err(_) => None,
    }
}

/// Reads an `n`-byte little-endian integer at `pos`.
#[verifier::loop_isolation(false)]
fn parse_le(bytes: &[u8], pos: usize, n: usize) -> (r: Option<(u64, usize)>)
    requires
        pos <= bytes@.len(),
        1 <= n <= 8,
    ensures
        match r {
            Some(p) => {
                &&& sp_le(bytes@.skip(pos as int), n as nat) == Some((p.0 as int, n as int))
                &&& p.1 == pos + n
                &&& p.1 <= bytes@.len()
            },
            None => sp_le(bytes@.skip(pos as int), n as nat) is None,
        },
{
    if bytes.len() - pos < n {
        proof {
            assert(bytes@.skip(pos as int).len() < n as nat);
        }
        return None;
    }
    proof {
        lemma_pow256_values();
    }
    let mut acc: u64 = 0;
    let mut i: usize = n;
    proof {
        assert(bytes@.subrange((pos + n) as int, (pos + n) as int) =~= Seq::<u8>::empty());
    }
    while i > 0
        invariant
            0 <= i <= n,
            acc as int == le_value(bytes@.subrange((pos + i) as int, (pos + n) as int)),
            (acc as int) < pow256((n - i) as nat),
        decreases i,
    {
        i -= 1;
        let b = bytes[pos + i];
        proof {
            let sub = bytes@.subrange((pos + i) as int, (pos + n) as int);
            assert(sub[0] == b);
            assert(sub.drop_first() =~= bytes@.subrange((pos + i + 1) as int, (pos + n) as int));
            assert(pow256((n - i) as nat) == 256 * pow256((n - i - 1) as nat));
            assert(acc as int * 256 + b < pow256((n - i) as nat)) by (nonlinear_arith)
                requires
                    (acc as int) < pow256((n - i - 1) as nat),
                    b < 256,
                    pow256((n - i) as nat) == 256 * pow256((n - i - 1) as nat),
            ;
            lemma_pow256_mono((n - i) as nat, 8);
        }
        acc = acc * 256 + (b as u64);
    }
    proof {
        assert(bytes@.skip(pos as int).take(n as int) =~= bytes@.subrange(
            pos as int,
            (pos + n) as int,
        ));
    }
    Some((acc, pos + n))
}

/// Reads a one-byte status tag at `pos`.
fn parse_status(bytes: &[u8], pos: usize) -> (r: Option<(Status, usize)>)
    requires
        pos <= bytes@.len(),
    ensures
        match r {
            Some(p) => sp_status(bytes@.skip(pos as int)) == Some((p.0, 1int)) && p.1 == pos + 1
                && p.1 <= bytes@.len(),
            None => sp_status(bytes@.skip(pos as int)) is None,
        },
{
    if pos >= bytes.len() {
        return None;
    }
    let t = bytes[pos];
    proof {
        assert(bytes@.skip(pos as int)[0] == t);
    }
    if t == 0 {
        Some((Status::Open, pos + 1))
    } else if t == 1 {
        Some((Status::InProgress, pos + 1))
    } else if t == 2 {
        Some((Status::Resolved, pos + 1))
    } else if t == 3 {
        Some((Status::Closed, pos + 1))
    } else {
        None
    }
}

/// Reads a length-prefixed UTF-8 string at `pos`.
fn parse_string(bytes: &[u8], pos: usize) -> (r: Option<(String, usize)>)
    requires
        pos <= bytes@.len(),
    ensures
        match r {
            Some(p) => sp_string(bytes@.skip(pos as int)) == Some((p.0@, (p.1 - pos) as int))
                && pos <= p.1 <= bytes@.len(),
            None => sp_string(bytes@.skip(pos as int)) is None,
        },
{
    let ghost b = bytes@.skip(pos as int);
    let (bl, p1) = match parse_le(bytes, pos, 8) {
        None => {
            return None;
        },
        Some(p) => p,
    };
    let rem = bytes.len() - p1;
    if bl > rem as u64 {
        proof {
            assert(bl as int + 8 > b.len());
        }
        return None;
    }
    let bl_us = bl as usize;
    proof {
        assert(bl_us as int == bl as int);
        assert(b.subrange(8, 8 + bl as int) =~= bytes@.subrange(p1 as int, (p1 + bl_us) as int));
    }
    let sub = vstd::slice::slice_subrange(bytes, p1, p1 + bl_us);
    let v = vstd::slice::slice_to_vec(sub);
    match string_from_utf8(v) {
        None => {
            proof {
                assert(!valid_utf8(b.subrange(8, 8 + bl as int)));
            }
            None
        },
        Some(s) => {
            proof {
                encode_utf8_decode_utf8(s@);
                assert(decode_utf8(b.subrange(8, 8 + bl as int)) == s@);
            }
            Some((s, p1 + bl_us))
        },
    }
}

/// Reads a story at `pos`.
fn parse_story(bytes: &[u8], pos: usize) -> (r: Option<(Story, usize)>)
    requires
        pos <= bytes@.len(),
    ensures
        match r {
            Some(p) => sp_story(bytes@.skip(pos as int)) == Some((p.0@, (p.1 - pos) as int))
                && pos <= p.1 <= bytes@.len(),
            None => sp_story(bytes@.skip(pos as int)) is None,
        },
{
    let ghost b = bytes@.skip(pos as int);
    let (name, p1) = match parse_string(bytes, pos) {
        None => {
            return None;
        },
        Some(p) => p,
    };
    proof {
        assert(bytes@.skip(p1 as int) =~= b.skip((p1 - pos) as int));
    }
    let (desc, p2) = match parse_string(bytes, p1) {
        None => {
            return None;
        },
        Some(p) => p,
    };
    proof {
        assert(bytes@.skip(p2 as int) =~= b.skip((p2 - pos) as int));
    }
    let (st, p3) = match parse_status(bytes, p2) {
        None => {
            return None;
        },
        Some(p) => p,
    };
    let story = Story { name: name, description: desc, status: st };
    proof {
        assert(sp_story(b) == Some((story@, (p3 - pos) as int)));
    }
    Some((story, p3))
}

/// Reads an epic at `pos`.
#[verifier::loop_isolation(false)]
fn parse_epic(bytes: &[u8], pos: usize) -> (r: Option<(Epic, usize)>)
    requires
        pos <= bytes@.len(),
    ensures
        match r {
            Some(p) => sp_epic(bytes@.skip(pos as int)) == Some((p.0@, (p.1 - pos) as int))
                && pos <= p.1 <= bytes@.len(),
            None => sp_epic(bytes@.skip(pos as int)) is None,
        },
{
    let ghost b = bytes@.skip(pos as int);
    let (name, p1) = match parse_string(bytes, pos) {
        None => {
            return None;
        },
        Some(p) => p,
    };
    proof {
        assert(bytes@.skip(p1 as int) =~= b.skip((p1 - pos) as int));
    }
    let (desc, p2) = match parse_string(bytes, p1) {
        None => {
            return None;
        },
        Some(p) => p,
    };
    proof {
        assert(bytes@.skip(p2 as int) =~= b.skip((p2 - pos) as int));
    }
    let (st, p3) = match parse_status(bytes, p2) {
        None => {
            return None;
        },
        Some(p) => p,
    };
    proof {
        assert(bytes@.skip(p3 as int) =~= b.skip((p3 - pos) as int));
    }
    let (m, p4) = match parse_le(bytes, p3, 8) {
        None => {
            return None;
        },
        Some(p) => p,
    };
    proof {
        assert(bytes@.skip(p4 as int) =~= b.skip((p4 - pos) as int));
        lemma_pow256_values();
    }
    let mut ids: Vec<DbIndex> = Vec::new();
    let mut k: u64 = 0;
    let mut cur: usize = p4;
    proof {
        assert(ids@ + Seq::<DbIndex>::empty() =~= ids@);
    }
    while k < m
        invariant
            0 <= k <= m,
            p4 <= cur <= bytes@.len(),
            ids@.len() == k,
            sp_ids(b.skip((p4 - pos) as int), m as nat) == (match sp_ids(
                bytes@.skip(cur as int),
                (m - k) as nat,
            ) {
                None => None::<(Seq<DbIndex>, int)>,
                Some(q) => Some((ids@ + q.0, (cur - p4) + q.1)),
            }),
        decreases m - k,
    {
        let ghost pcur = cur as int;
        let ghost pids = ids@;
        let (v, nxt) = match parse_le(bytes, cur, 2) {
            None => {
                proof {
                    assert(sp_ids(bytes@.skip(pcur), (m - k) as nat) is None);
                    assert(sp_epic(b) is None);
                }
                return None;
            },
            Some(p) => p,
        };
        proof {
            lemma_le_value_bound(bytes@.skip(pcur).take(2));
            assert((v as int) < pow256(2));
        }
        ids.push(v as u16);
        cur = nxt;
        k += 1;
        proof {
            assert(bytes@.skip(pcur).skip(2) =~= bytes@.skip(pcur + 2));
            assert(ids@ =~= pids.push((v as int) as DbIndex));
            let rest_m = (m - k) as nat;
            match sp_ids(bytes@.skip(cur as int), rest_m) {
                None => {
                    assert(sp_ids(bytes@.skip(pcur), (rest_m + 1) as nat) is None);
                },
                Some(q) => {
                    assert(sp_ids(bytes@.skip(pcur), (rest_m + 1) as nat) == Some(
                        (seq![(v as int) as DbIndex] + q.0, 2 + q.1),
                    ));
                    assert(pids + (seq![(v as int) as DbIndex] + q.0) =~= ids@ + q.0);
                },
            }
        }
    }
    proof {
        assert(sp_ids(bytes@.skip(cur as int), 0) == Some((Seq::<DbIndex>::empty(), 0int)));
        assert(ids@ + Seq::<DbIndex>::empty() =~= ids@);
    }
    let e = Epic { name: name, description: desc, status: st, stories: ids };
    proof {
        assert(sp_epic(b) == Some((e@, (cur - pos) as int)));
    }
    Some((e, cur))
}

/// Decodes the storage blob, accepting exactly the encodings of well-formed
/// states; anything else is `Corrupt`.
#[verifier::loop_isolation(false)]
#[verifier::rlimit(100)]
pub fn decode_state(bytes: &[u8]) -> (r: Result<DBState, DbError>)
    ensures
        r matches Ok(s) ==> sp_state(bytes@) == Some(s@) && s@.wf(),
        r matches Err(e) ==> sp_state(bytes@) is None && e == DbError::Corrupt,
{
    proof {
        assert(bytes@.skip(0) =~= bytes@);
        lemma_pow256_values();
    }
    let (last, p1) = match parse_le(bytes, 0, 2) {
        None => {
            return Err(DbError::Corrupt);
        },
        Some(p) => p,
    };
    proof {
        lemma_le_value_bound(bytes@.take(2));
        assert((last as int) < pow256(2));
    }
    let (ne64, p2) = match parse_le(bytes, p1, 8) {
        None => {
            return Err(DbError::Corrupt);
        },
        Some(p) => p,
    };
    let ghost ne_spec = ne64 as nat;
    let mut eacc: Vec<(DbIndex, Epic)> = Vec::new();
    let mut k: u64 = 0;
    let mut cur: usize = p2;
    proof {
        assert(entries_view(eacc@) + Seq::<(DbIndex, EpicView)>::empty() =~= entries_view(eacc@));
    }
    while k < ne64
        invariant
            0 <= k <= ne64,
            p2 <= cur <= bytes@.len(),
            eacc@.len() == k,
            sp_epic_entries(bytes@.skip(p2 as int), ne_spec) == (match sp_epic_entries(
                bytes@.skip(cur as int),
                (ne64 - k) as nat,
            ) {
                None => None::<(Seq<(DbIndex, EpicView)>, int)>,
                Some(q) => Some((entries_view(eacc@) + q.0, (cur - p2) + q.1)),
            }),
        decreases ne64 - k,
    {
        let ghost pcur = cur as int;
        let ghost pview = entries_view(eacc@);
        let (kid, pk) = match parse_le(bytes, cur, 2) {
            None => {
                proof {
                    assert(sp_epic_entries(bytes@.skip(pcur), (ne64 - k) as nat) is None);
                    assert(sp_state(bytes@) is None);
                }
                return Err(DbError::Corrupt);
            },
            Some(p) => p,
        };
        proof {
            lemma_le_value_bound(bytes@.skip(pcur).take(2));
            assert((kid as int) < pow256(2));
            assert(bytes@.skip(pcur).skip(2) =~= bytes@.skip(pk as int));
        }
        let (ep, pe) = match parse_epic(bytes, pk) {
            None => {
                proof {
                    assert(sp_epic_entries(bytes@.skip(pcur), (ne64 - k) as nat) is None);
                    assert(sp_state(bytes@) is None);
                }
                return Err(DbError::Corrupt);
            },
            Some(p) => p,
        };
        eacc.push((kid as u16, ep));
        cur = pe;
        k += 1;
        proof {
            assert(entries_view(eacc@) =~= pview.push((((kid as int) as DbIndex), ep@)));
            assert(bytes@.skip(pcur).skip(2).skip((pe - pk) as int) =~= bytes@.skip(cur as int));
            assert(bytes@.skip(pcur).skip(2 + (pe - pk) as int) =~= bytes@.skip(cur as int));
            let rest_m = (ne64 - k) as nat;
            match sp_epic_entries(bytes@.skip(cur as int), rest_m) {
                None => {
                    assert(sp_epic_entries(bytes@.skip(pcur), (rest_m + 1) as nat) is None);
                },
                Some(q) => {
                    assert(sp_epic_entries(bytes@.skip(pcur), (rest_m + 1) as nat) == Some(
                        (seq![(((kid as int) as DbIndex), ep@)] + q.0, 2 + (pe - pk) + q.1),
                    ));
                    assert(pview + (seq![(((kid as int) as DbIndex), ep@)] + q.0)
                        =~= entries_view(eacc@) + q.0);
                },
            }
        }
    }
    proof {
        assert(sp_epic_entries(bytes@.skip(cur as int), 0) == Some(
            (Seq::<(DbIndex, EpicView)>::empty(), 0int),
        ));
        assert(entries_view(eacc@) + Seq::<(DbIndex, EpicView)>::empty() =~= entries_view(eacc@));
    }
    let ghost es = entries_view(eacc@);
    let ghost ec = cur as int;
    let (ns64, p4) = match parse_le(bytes, cur, 8) {
        None => {
            return Err(DbError::Corrupt);
        },
        Some(p) => p,
    };
    let ghost ns_spec = ns64 as nat;
    let mut sacc: Vec<(DbIndex, Story)> = Vec::new();
    let mut k2: u64 = 0;
    let mut cur2: usize = p4;
    proof {
        assert(entries_view(sacc@) + Seq::<(DbIndex, StoryView)>::empty() =~= entries_view(
            sacc@,
        ));
    }
    while k2 < ns64
        invariant
            0 <= k2 <= ns64,
            p4 <= cur2 <= bytes@.len(),
            sacc@.len() == k2,
            sp_story_entries(bytes@.skip(p4 as int), ns_spec) == (match sp_story_entries(
                bytes@.skip(cur2 as int),
                (ns64 - k2) as nat,
            ) {
                None => None::<(Seq<(DbIndex, StoryView)>, int)>,
                Some(q) => Some((entries_view(sacc@) + q.0, (cur2 - p4) + q.1)),
            }),
        decreases ns64 - k2,
    {
        let ghost pcur = cur2 as int;
        let ghost pview = entries_view(sacc@);
        let (kid, pk) = match parse_le(bytes, cur2, 2) {
            None => {
                proof {
                    assert(sp_story_entries(bytes@.skip(pcur), (ns64 - k2) as nat) is None);
                    assert(sp_state(bytes@) is None);
                }
                return Err(DbError::Corrupt);
            },
            Some(p) => p,
        };
        proof {
            lemma_le_value_bound(bytes@.skip(pcur).take(2));
            assert((kid as int) < pow256(2));
            assert(bytes@.skip(pcur).skip(2) =~= bytes@.skip(pk as int));
        }
        let (st, pe) = match parse_story(bytes, pk) {
            None => {
                proof {
                    assert(sp_story_entries(bytes@.skip(pcur), (ns64 - k2) as nat) is None);
                    assert(sp_state(bytes@) is None);
                }
                return Err(DbError::Corrupt);
            },
            Some(p) => p,
        };
        sacc.push((kid as u16, st));
        cur2 = pe;
        k2 += 1;
        proof {
            assert(entries_view(sacc@) =~= pview.push((((kid as int) as DbIndex), st@)));
            assert(bytes@.skip(pcur).skip(2).skip((pe - pk) as int) =~= bytes@.skip(cur2 as int));
            assert(bytes@.skip(pcur).skip(2 + (pe - pk) as int) =~= bytes@.skip(cur2 as int));
            let rest_m = (ns64 - k2) as nat;
            match sp_story_entries(bytes@.skip(cur2 as int), rest_m) {
                None => {
                    assert(sp_story_entries(bytes@.skip(pcur), (rest_m + 1) as nat) is None);
                },
                Some(q) => {
                    assert(sp_story_entries(bytes@.skip(pcur), (rest_m + 1) as nat) == Some(
                        (seq![(((kid as int) as DbIndex), st@)] + q.0, 2 + (pe - pk) + q.1),
                    ));
                    assert(pview + (seq![(((kid as int) as DbIndex), st@)] + q.0)
                        =~= entries_view(sacc@) + q.0);
                },
            }
        }
    }
    proof {
        assert(sp_story_entries(bytes@.skip(cur2 as int), 0) == Some(
            (Seq::<(DbIndex, StoryView)>::empty(), 0int),
        ));
        assert(entries_view(sacc@) + Seq::<(DbIndex, StoryView)>::empty() =~= entries_view(
            sacc@,
        ));
    }
    if cur2 != bytes.len() {
        proof {
            assert(sp_state(bytes@) is None);
        }
        return Err(DbError::Corrupt);
    }
    let state = DBState {
        last_item_id: last as u16,
        epics: Table::from_entries(eacc),
        stories: Table::from_entries(sacc),
    };
    proof {
        assert(state@ =~~= StateView {
            last_item_id: ((last as int) as DbIndex),
            epics: es,
            stories: entries_view(sacc@),
        });
    }
    if !state.is_well_formed() {
        proof {
            assert(sp_state(bytes@) is None);
        }
        return Err(DbError::Corrupt);
    }
    proof {
        assert(sp_state(bytes@) == Some(state@));
    }
    Ok(state)
}

} // verus!
