//! Rooms, their peers and their join codes.

use rand::Rng;
use vstd::arithmetic::div_mod::lemma_fundamental_div_mod_converse;
use vstd::prelude::*;
use vstd::std_specs::iter::IteratorSpec;
use vstd::utf8::{decode_utf8, encode_utf8, encode_utf8_decode_utf8};
use crate::protocol::packet::{RoomInfo, RoomInfoView};
use crate::text::{lemma_ascii_text, str_eq, string_from_utf8};

verus! {

/// How many symbols a join code has.
pub const ID_LENGTH: usize = 5;

/// How many symbols the join code alphabet has.
pub const ID_CHARS_LEN: usize = 33;

/// How many codes the generator draws at random before it goes through the
/// codes one by one.
pub const MAX_ROLLS: usize = 64;

/// How many join codes there are: `ID_CHARS_LEN` to the power `ID_LENGTH`.
pub const ID_SPACE: u64 = 39_135_393;

/// The join code alphabet `ABCDEFGHJKLMNPQRSTUVWXYZ123456789`, as ASCII
/// codes: capital letters and digits that are hard to mistake for one
/// another (no `I`, no `O`, no `0`).
pub open spec fn spec_id_chars() -> Seq<u8> {
    seq![
        65u8, 66u8, 67u8, 68u8, 69u8, 70u8, 71u8, 72u8, 74u8, 75u8, 76u8, 77u8, 78u8, 80u8, 81u8, 82u8,
        83u8, 84u8, 85u8, 86u8, 87u8, 88u8, 89u8, 90u8, 49u8, 50u8, 51u8, 52u8, 53u8, 54u8, 55u8, 56u8,
        57u8,
    ]
}

/// Whether `code` has the shape of a join code: `ID_LENGTH` symbols of the
/// alphabet.
pub open spec fn spec_is_join_code(code: Seq<char>) -> bool {
    &&& encode_utf8(code).len() == ID_LENGTH
    &&& forall|i: int| 0 <= i < ID_LENGTH ==> spec_id_chars().contains(#[trigger] encode_utf8(code)[i])
}

/// Whether every join code is in use.
pub open spec fn spec_codes_exhausted(used: Set<Seq<char>>) -> bool {
    forall|code: Seq<char>| #[trigger] spec_is_join_code(code) ==> used.contains(code)
}

/// The alphabet indices that spell the number `k` in base `ID_CHARS_LEN`,
/// the most significant first.
pub open spec fn spec_rolls_of(k: int) -> Seq<usize> {
    seq![
        ((k / 1_185_921) % 33) as usize,
        ((k / 35_937) % 33) as usize,
        ((k / 1_089) % 33) as usize,
        ((k / 33) % 33) as usize,
        (k % 33) as usize,
    ]
}

/// The bytes that the alphabet indices `rolls` spell.
pub open spec fn spec_code_bytes(rolls: Seq<usize>) -> Seq<u8> {
    rolls.map_values(|idx: usize| spec_id_chars()[idx as int])
}

/// The join code with the number `k`.
pub open spec fn spec_code_at(k: int) -> Seq<char> {
    decode_utf8(spec_code_bytes(spec_rolls_of(k)))
}

/// Five digits below 33 are the digits, in base 33, of the number that they
/// spell.
proof fn lemma_base_33(e0: int, e1: int, e2: int, e3: int, e4: int)
    requires
        0 <= e0 < 33,
        0 <= e1 < 33,
        0 <= e2 < 33,
        0 <= e3 < 33,
        0 <= e4 < 33,
    ensures
        ({
            let k = e0 * 1_185_921 + e1 * 35_937 + e2 * 1_089 + e3 * 33 + e4;
            &&& 0 <= k < ID_SPACE
            &&& (k / 1_185_921) % 33 == e0
            &&& (k / 35_937) % 33 == e1
            &&& (k / 1_089) % 33 == e2
            &&& (k / 33) % 33 == e3
            &&& k % 33 == e4
        }),
{
    let k = e0 * 1_185_921 + e1 * 35_937 + e2 * 1_089 + e3 * 33 + e4;
    let q1 = e0 * 35_937 + e1 * 1_089 + e2 * 33 + e3;
    let q2 = e0 * 1_089 + e1 * 33 + e2;
    let q3 = e0 * 33 + e1;
    lemma_fundamental_div_mod_converse(k, 33, q1, e4);
    lemma_fundamental_div_mod_converse(q1, 33, q2, e3);
    lemma_fundamental_div_mod_converse(k, 1_089, q2, e3 * 33 + e4);
    lemma_fundamental_div_mod_converse(q2, 33, q3, e2);
    lemma_fundamental_div_mod_converse(k, 35_937, q3, e2 * 1_089 + e3 * 33 + e4);
    lemma_fundamental_div_mod_converse(q3, 33, e0, e1);
    lemma_fundamental_div_mod_converse(k, 1_185_921, e0, e1 * 35_937 + e2 * 1_089 + e3 * 33 + e4);
    lemma_fundamental_div_mod_converse(e0, 33, 0, e0);
}

/// Every join code has a number below `ID_SPACE`.
pub proof fn lemma_code_has_number(code: Seq<char>)
    requires
        spec_is_join_code(code),
    ensures
        exists|k: int| 0 <= k < ID_SPACE && code == #[trigger] spec_code_at(k),
{
    let bytes = encode_utf8(code);
    let alphabet = spec_id_chars();
    assert(alphabet.contains(bytes[0]) && alphabet.contains(bytes[1]) && alphabet.contains(bytes[2])
        && alphabet.contains(bytes[3]) && alphabet.contains(bytes[4]));
    let e0 = choose|i: int| 0 <= i < alphabet.len() && alphabet[i] == bytes[0];
    let e1 = choose|i: int| 0 <= i < alphabet.len() && alphabet[i] == bytes[1];
    let e2 = choose|i: int| 0 <= i < alphabet.len() && alphabet[i] == bytes[2];
    let e3 = choose|i: int| 0 <= i < alphabet.len() && alphabet[i] == bytes[3];
    let e4 = choose|i: int| 0 <= i < alphabet.len() && alphabet[i] == bytes[4];
    let k = e0 * 1_185_921 + e1 * 35_937 + e2 * 1_089 + e3 * 33 + e4;
    assert(alphabet.len() == 33);
    lemma_base_33(e0, e1, e2, e3, e4);
    assert(spec_code_bytes(spec_rolls_of(k)) =~= bytes);
    encode_utf8_decode_utf8(code);
    assert(code == spec_code_at(k));
}

/// A join code drawn at random.
pub(crate) fn roll_code() -> (code: String)
    ensures
        spec_is_join_code(code@),
{
    let mut rolls: Vec<usize> = Vec::new();
    let mut i: usize = 0;
    while i < ID_LENGTH
        invariant
            i <= ID_LENGTH,
            rolls@.len() == i,
            forall|k: int| 0 <= k < rolls@.len() ==> #[trigger] rolls@[k] < ID_CHARS_LEN,
        decreases ID_LENGTH - i,
    {
        rolls.push(random_index(ID_CHARS_LEN));
        i += 1;
    }
    code_from_rolls(&rolls)
}

/// The join code with the number `k`.
pub(crate) fn code_at(k: u64) -> (code: String)
    requires
        k < ID_SPACE,
    ensures
        code@ == spec_code_at(k as int),
        spec_is_join_code(code@),
{
    let rolls = rolls_of(k);
    let code = code_from_rolls(&rolls);
    proof {
        encode_utf8_decode_utf8(code@);
    }
    code
}

fn rolls_of(k: u64) -> (rolls: Vec<usize>)
    requires
        k < ID_SPACE,
    ensures
        rolls@ == spec_rolls_of(k as int),
        rolls@.len() == ID_LENGTH,
        forall|i: int| 0 <= i < rolls@.len() ==> #[trigger] rolls@[i] < ID_CHARS_LEN,
{
    let mut rolls: Vec<usize> = Vec::new();
    rolls.push(((k / 1_185_921) % 33) as usize);
    rolls.push(((k / 35_937) % 33) as usize);
    rolls.push(((k / 1_089) % 33) as usize);
    rolls.push(((k / 33) % 33) as usize);
    rolls.push((k % 33) as usize);
    assert(rolls@ =~= spec_rolls_of(k as int));
    rolls
}

/// `Rng::random_range` of rand on the thread's generator (`rand::rng`): a
/// number from zero up to, and not including, `bound`. Which one is open.
#[verifier::external_body]
fn random_index(bound: usize) -> (r: usize)
    requires
        bound > 0,
    ensures
        r < bound,
{
    rand::rng().random_range(0..bound)
}

fn id_char(idx: usize) -> (b: u8)
    requires
        idx < ID_CHARS_LEN,
    ensures
        b == spec_id_chars()[idx as int],
        b < 128,
{
    let chars: [u8; 33] = [
        65u8, 66u8, 67u8, 68u8, 69u8, 70u8, 71u8, 72u8, 74u8, 75u8, 76u8, 77u8, 78u8, 80u8, 81u8, 82u8,
        83u8, 84u8, 85u8, 86u8, 87u8, 88u8, 89u8, 90u8, 49u8, 50u8, 51u8, 52u8, 53u8, 54u8, 55u8, 56u8,
        57u8,
    ];
    chars[idx]
}

/// The join code that the alphabet indices `rolls` spell: symbol `k` of
/// the code is symbol `rolls[k]` of the alphabet.
pub fn code_from_rolls(rolls: &Vec<usize>) -> (code: String)
    requires
        rolls@.len() == ID_LENGTH,
        forall|i: int| 0 <= i < rolls@.len() ==> #[trigger] rolls@[i] < ID_CHARS_LEN,
    ensures
        spec_is_join_code(code@),
        encode_utf8(code@) == spec_code_bytes(rolls@),
{
    let mut bytes: Vec<u8> = Vec::new();
    let mut i: usize = 0;
    while i < ID_LENGTH
        invariant
            i <= ID_LENGTH,
            rolls@.len() == ID_LENGTH,
            forall|k: int| 0 <= k < rolls@.len() ==> #[trigger] rolls@[k] < ID_CHARS_LEN,
            bytes@.len() == i,
            forall|k: int| 0 <= k < i ==> #[trigger] bytes@[k] == spec_id_chars()[rolls@[k] as int],
            forall|k: int| 0 <= k < i ==> #[trigger] bytes@[k] < 128,
        decreases ID_LENGTH - i,
    {
        bytes.push(id_char(rolls[i]));
        i += 1;
    }
    proof {
        lemma_ascii_text(bytes@);
        assert(bytes@ =~= spec_code_bytes(rolls@));
    }
    let ghost spelled = bytes@;
    match string_from_utf8(bytes) {
        Some(code) => {
            assert forall|k: int| 0 <= k < ID_LENGTH implies spec_id_chars().contains(
                #[trigger] encode_utf8(code@)[k],
            ) by {
                assert(spelled[k] == spec_id_chars()[rolls@[k] as int]);
            }
            code
        },
        None => {
            assert(false);
            String::new()
        },
    }
}

/// The join codes that are in use. No code is handed out while it is in use.
pub struct RoomIds {
    used: Vec<String>,
}

impl View for RoomIds {
    type V = Set<Seq<char>>;

    closed spec fn view(&self) -> Set<Seq<char>> {
        Set::new(|code: Seq<char>| exists|i: int| 0 <= i < self.used@.len() && (#[trigger] self.used@[i])@ == code)
    }
}

impl RoomIds {
    /// No code is in use.
    pub fn new() -> (r: Self)
        ensures
            r@ == Set::<Seq<char>>::empty(),
    {
        let r = Self { used: Vec::new() };
        assert(r@ =~= Set::<Seq<char>>::empty());
        r
    }

    /// Whether `id` is in use.
    pub fn is_used(&self, id: &str) -> (r: bool)
        ensures
            r == self@.contains(id@),
    {
        let mut i: usize = 0;
        while i < self.used.len()
            invariant
                i <= self.used.len(),
                forall|k: int| 0 <= k < i ==> (#[trigger] self.used@[k])@ != id@,
            decreases self.used.len() - i,
        {
            if str_eq(self.used[i].as_str(), id) {
                return true;
            }
            i += 1;
        }
        false
    }

    /// Takes `id` into use unless it is in use already, and says whether it
    /// did.
    pub fn claim(&mut self, id: String) -> (fresh: bool)
        ensures
            fresh == !old(self)@.contains(id@),
            final(self)@ == old(self)@.insert(id@),
    {
        if self.is_used(id.as_str()) {
            assert(self@ =~= old(self)@.insert(id@));
            false
        } else {
            self.used.push(id);
            proof {
                let before = old(self).used@;
                let after = self.used@;
                assert forall|i: int| 0 <= i < before.len() implies #[trigger] after[i] == before[i] by {}
                assert(after[before.len() as int]@ == id@);
                assert forall|code: Seq<char>| self@.contains(code) <==> old(self)@.insert(id@).contains(code) by {
                    if old(self)@.contains(code) {
                        let i = choose|i: int| 0 <= i < before.len() && (#[trigger] before[i])@ == code;
                        assert(after[i]@ == code);
                    }
                    if self@.contains(code) && code != id@ {
                        let i = choose|i: int| 0 <= i < after.len() && (#[trigger] after[i])@ == code;
                        assert(before[i]@ == code);
                    }
                }
                assert(self@ =~= old(self)@.insert(id@));
            }
            true
        }
    }

    /// Takes a join code that is free into use and returns it. The code is
    /// drawn at random; after `MAX_ROLLS` draws that all hit a code in use, the
    /// codes are gone through one by one. `None` only when every join code is
    /// in use.
    pub fn generate(&mut self) -> (r: Option<String>)
        ensures
            match r {
                Some(id) => spec_is_join_code(id@) && !old(self)@.contains(id@) && final(self)@ == old(self)@.insert(
                    id@,
                ),
                None => final(self)@ == old(self)@,
            },
            r is None <==> spec_codes_exhausted(old(self)@),
    {
        let mut attempt: usize = 0;
        while attempt < MAX_ROLLS
            invariant
                self@ == old(self)@,
            decreases MAX_ROLLS - attempt,
        {
            let id = roll_code();
            let copy = id.clone();
            if self.claim(id) {
                return Some(copy);
            }
            attempt += 1;
        }
        let mut k: u64 = 0;
        while k < ID_SPACE
            invariant
                k <= ID_SPACE,
                self@ == old(self)@,
                forall|j: int| 0 <= j < k ==> self@.contains(#[trigger] spec_code_at(j)),
            decreases ID_SPACE - k,
        {
            let id = code_at(k);
            let copy = id.clone();
            if self.claim(id) {
                return Some(copy);
            }
            k += 1;
        }
        proof {
            assert forall|code: Seq<char>| #[trigger] spec_is_join_code(code) implies self@.contains(code) by {
                lemma_code_has_number(code);
                let n = choose|n: int| 0 <= n < ID_SPACE && code == #[trigger] spec_code_at(n);
                assert(self@.contains(spec_code_at(n)));
            }
        }
        None
    }

    /// Takes `id` out of use. Does nothing if it was not in use.
    pub fn free(&mut self, id: &str)
        ensures
            final(self)@ == old(self)@.remove(id@),
    {
        let mut i: usize = self.used.len();
        while i > 0
            invariant
                i <= self.used.len(),
                forall|k: int| i <= k < self.used@.len() ==> (#[trigger] self.used@[k])@ != id@,
                forall|code: Seq<char>| code != id@ ==> (self@.contains(code) <==> old(self)@.contains(code)),
            decreases i,
        {
            i -= 1;
            if str_eq(self.used[i].as_str(), id) {
                let ghost before = self.used@;
                let ghost set_before = self@;
                self.used.remove(i);
                proof {
                    let after = self.used@;
                    assert forall|k: int| 0 <= k < after.len() implies #[trigger] after[k] == before[if k < i {
                        k
                    } else {
                        k + 1
                    }] by {}
                    assert forall|k: int| i <= k < after.len() implies (#[trigger] after[k])@ != id@ by {
                        assert(after[k] == before[k + 1]);
                    }
                    assert forall|code: Seq<char>| code != id@ implies (self@.contains(code)
                        <==> set_before.contains(code)) by {
                        if self@.contains(code) {
                            let k = choose|k: int| 0 <= k < after.len() && (#[trigger] after[k])@ == code;
                            let j = if k < i { k } else { k + 1 };
                            assert(after[k] == before[j]);
                            assert(before[j]@ == code);
                        }
                        if set_before.contains(code) {
                            let j = choose|j: int| 0 <= j < before.len() && (#[trigger] before[j])@ == code;
                            let k = if j < i { j } else { j - 1 };
                            assert(after[k] == before[j]);
                            assert(after[k]@ == code);
                        }
                    }
                }
            }
        }
        proof {
            if self@.contains(id@) {
                let k = choose|k: int| 0 <= k < self.used@.len() && (#[trigger] self.used@[k])@ == id@;
                assert(self.used@[k]@ != id@);
            }
            assert(self@ =~= old(self)@.remove(id@));
        }
    }
}

/// A room as mathematics sees it. `members` pairs each client with its peer
/// id, in joining order.
pub struct RoomView {
    pub id: u64,
    pub join_code: Seq<char>,
    pub is_public: bool,
    pub metadata: Seq<char>,
    pub host: u64,
    pub members: Seq<(u64, i32)>,
    pub next_peer_id: i32,
}

impl RoomView {
    /// Whether `client` is in the room.
    pub open spec fn has_client(self, client: u64) -> bool {
        exists|i: int| 0 <= i < self.members.len() && (#[trigger] self.members[i]).0 == client
    }

    /// Whether some member carries the peer id `peer`.
    pub open spec fn has_peer(self, peer: i32) -> bool {
        exists|i: int| 0 <= i < self.members.len() && (#[trigger] self.members[i]).1 == peer
    }

    /// The peer id of `client`, if it is in the room.
    pub open spec fn peer_of(self, client: u64) -> Option<i32> {
        if self.has_client(client) {
            let i = choose|i: int| 0 <= i < self.members.len() && (#[trigger] self.members[i]).0 == client;
            Some(self.members[i].1)
        } else {
            None
        }
    }

    /// The client that carries the peer id `peer`, if any does.
    pub open spec fn client_of(self, peer: i32) -> Option<u64> {
        if self.has_peer(peer) {
            let i = choose|i: int| 0 <= i < self.members.len() && (#[trigger] self.members[i]).1 == peer;
            Some(self.members[i].0)
        } else {
            None
        }
    }

    /// The clients of the room, in joining order.
    pub open spec fn clients(self) -> Seq<u64> {
        self.members.map_values(|m: (u64, i32)| m.0)
    }

    /// No client and no peer id occurs twice, and every peer id lies from 1
    /// up to, and not including, the next one to be handed out.
    pub open spec fn wf(self) -> bool {
        &&& 1 <= self.next_peer_id
        &&& forall|i: int|
            0 <= i < self.members.len() ==> 1 <= (#[trigger] self.members[i]).1 < self.next_peer_id
        &&& forall|i: int, j: int|
            0 <= i < j < self.members.len() ==> (#[trigger] self.members[i]).0 != (
            #[trigger] self.members[j]).0
        &&& forall|i: int, j: int|
            0 <= i < j < self.members.len() ==> (#[trigger] self.members[i]).1 != (
            #[trigger] self.members[j]).1
    }

    /// The host is one of the members.
    pub open spec fn hosted(self) -> bool {
        self.has_client(self.host)
    }

    /// The members but `client`.
    pub open spec fn without(self, client: u64) -> Seq<(u64, i32)> {
        self.members.filter(spec_is_other(client))
    }

    /// What the room lists of itself.
    pub open spec fn info(self) -> RoomInfoView {
        RoomInfoView { join_code: self.join_code, metadata: self.metadata }
    }
}

/// The test that a member is not `client`.
pub open spec fn spec_is_other(client: u64) -> spec_fn((u64, i32)) -> bool {
    |m: (u64, i32)| m.0 != client
}

/// In a well-formed room the two directions of the peer table are inverse
/// to each other: a client has a peer id exactly if that peer id leads back
/// to the client.
pub proof fn lemma_peer_maps_inverse(room: RoomView, client: u64, peer: i32)
    requires
        room.wf(),
    ensures
        room.peer_of(client) == Some(peer) <==> room.client_of(peer) == Some(client),
{
    if room.peer_of(client) == Some(peer) {
        let i = choose|i: int| 0 <= i < room.members.len() && (#[trigger] room.members[i]).0 == client;
        assert(room.members[i].1 == peer);
        let j = choose|j: int| 0 <= j < room.members.len() && (#[trigger] room.members[j]).1 == peer;
        assert(i == j);
    }
    if room.client_of(peer) == Some(client) {
        let j = choose|j: int| 0 <= j < room.members.len() && (#[trigger] room.members[j]).1 == peer;
        assert(room.members[j].0 == client);
        let i = choose|i: int| 0 <= i < room.members.len() && (#[trigger] room.members[i]).0 == client;
        assert(i == j);
    }
}

/// In a well-formed room every peer id in use is at least 1, and two
/// different clients never share one.
pub proof fn lemma_peer_ids_distinct(room: RoomView, a: u64, b: u64)
    requires
        room.wf(),
        room.has_client(a),
        room.has_client(b),
        a != b,
    ensures
        room.peer_of(a)->0 >= 1,
        room.peer_of(a) != room.peer_of(b),
{
    let i = choose|i: int| 0 <= i < room.members.len() && (#[trigger] room.members[i]).0 == a;
    let j = choose|j: int| 0 <= j < room.members.len() && (#[trigger] room.members[j]).0 == b;
    assert(i != j);
}

/// The member at index `i` is found under its client and under its peer id.
pub proof fn lemma_member_at(room: RoomView, i: int)
    requires
        room.wf(),
        0 <= i < room.members.len(),
    ensures
        room.peer_of(room.members[i].0) == Some(room.members[i].1),
        room.client_of(room.members[i].1) == Some(room.members[i].0),
{
    let c = room.members[i].0;
    let p = room.members[i].1;
    let a = choose|a: int| 0 <= a < room.members.len() && (#[trigger] room.members[a]).0 == c;
    assert(a == i);
    let b = choose|b: int| 0 <= b < room.members.len() && (#[trigger] room.members[b]).1 == p;
    assert(b == i);
}

/// A group of clients that relay game data to one another. The client that
/// made the room is its host.
#[derive(Debug)]
pub struct Room {
    id: u64,
    join_code: String,
    is_public: bool,
    metadata: String,
    host_id: u64,
    peers: Vec<(u64, i32)>,
    next_godot_id: i32,
}

impl View for Room {
    type V = RoomView;

    closed spec fn view(&self) -> RoomView {
        RoomView {
            id: self.id,
            join_code: self.join_code@,
            is_public: self.is_public,
            metadata: self.metadata@,
            host: self.host_id,
            members: self.peers@,
            next_peer_id: self.next_godot_id,
        }
    }
}

impl Room {
    /// A room without members. The first peer id that it will hand out is 1.
    pub fn new(id: u64, join_code: String, host_id: u64, is_public: bool, metadata: String) -> (r: Self)
        ensures
            r@ == (RoomView {
                id,
                join_code: join_code@,
                is_public,
                metadata: metadata@,
                host: host_id,
                members: Seq::empty(),
                next_peer_id: 1,
            }),
            r@.wf(),
    {
        Self { id, join_code, is_public, metadata, host_id, peers: Vec::new(), next_godot_id: 1 }
    }

    /// The number of the room within its application.
    pub fn id(&self) -> (r: u64)
        ensures
            r == self@.id,
    {
        self.id
    }

    /// The code by which clients join the room.
    pub fn join_code(&self) -> (r: &String)
        ensures
            r@ == self@.join_code,
    {
        &self.join_code
    }

    /// Whether the room shows up in listings.
    pub fn is_public(&self) -> (r: bool)
        ensures
            r == self@.is_public,
    {
        self.is_public
    }

    /// The free-form text that the host attached to the room.
    pub fn metadata(&self) -> (r: &String)
        ensures
            r@ == self@.metadata,
    {
        &self.metadata
    }

    /// Replaces the room's free-form text.
    pub fn set_metadata(&mut self, metadata: String)
        ensures
            final(self)@ == (RoomView { metadata: metadata@, ..old(self)@ }),
    {
        self.metadata = metadata;
    }

    /// The room's entry in a listing.
    pub fn to_info(&self) -> (r: RoomInfo)
        ensures
            r@ == self@.info(),
    {
        RoomInfo { join_code: self.join_code.clone(), metadata: self.metadata.clone() }
    }

    fn position(&self, client_id: u64) -> (r: Option<usize>)
        ensures
            match r {
                Some(i) => i < self@.members.len() && self@.members[i as int].0 == client_id,
                None => !self@.has_client(client_id),
            },
    {
        let mut i: usize = 0;
        while i < self.peers.len()
            invariant
                i <= self.peers.len(),
                forall|k: int| 0 <= k < i ==> (#[trigger] self@.members[k]).0 != client_id,
            decreases self.peers.len() - i,
        {
            if self.peers[i].0 == client_id {
                return Some(i);
            }
            i += 1;
        }
        None
    }

    /// Whether the room can take `client_id` in: it is not a member yet, and
    /// a peer id is left for it.
    pub fn can_add(&self, client_id: u64) -> (r: bool)
        ensures
            r == (!self@.has_client(client_id) && self@.next_peer_id < i32::MAX),
    {
        self.next_godot_id < i32::MAX && self.position(client_id).is_none()
    }

    /// Takes `client_id` in under the next peer id and returns that id. Peer
    /// ids only grow, so none is handed out twice in the life of a room.
    pub fn add_peer(&mut self, client_id: u64) -> (godot_pid: i32)
        requires
            old(self)@.wf(),
            !old(self)@.has_client(client_id),
            old(self)@.next_peer_id < i32::MAX,
        ensures
            godot_pid == old(self)@.next_peer_id,
            final(self)@ == (RoomView {
                members: old(self)@.members.push((client_id, godot_pid)),
                next_peer_id: (godot_pid + 1) as i32,
                ..old(self)@
            }),
            final(self)@.wf(),
            final(self)@.peer_of(client_id) == Some(godot_pid),
            final(self)@.client_of(godot_pid) == Some(client_id),
            forall|c: u64| final(self)@.has_client(c) <==> c == client_id || old(self)@.has_client(c),
            forall|c: u64| c != client_id ==> final(self)@.peer_of(c) == old(self)@.peer_of(c),
    {
        let godot_pid = self.next_godot_id;
        self.peers.push((client_id, godot_pid));
        self.next_godot_id += 1;
        proof {
            let before = old(self)@;
            let after = self@;
            assert(after.members[before.members.len() as int] == (client_id, godot_pid));
            assert forall|i: int| 0 <= i < before.members.len() implies #[trigger] after.members[i]
                == before.members[i] by {}
            assert(after.wf()) by {
                assert forall|i: int, j: int| 0 <= i < j < after.members.len() implies (
                #[trigger] after.members[i]).0 != (#[trigger] after.members[j]).0 by {
                    if j == before.members.len() {
                        assert(before.members[i].0 != client_id);
                    }
                }
            }
            lemma_member_at(after, before.members.len() as int);
            assert forall|c: u64| after.has_client(c) <==> c == client_id || before.has_client(c) by {
                if before.has_client(c) {
                    let i = choose|i: int| 0 <= i < before.members.len() && (#[trigger] before.members[i]).0
                        == c;
                    assert(after.members[i].0 == c);
                }
                if after.has_client(c) && c != client_id {
                    let i = choose|i: int| 0 <= i < after.members.len() && (#[trigger] after.members[i]).0
                        == c;
                    assert(before.members[i].0 == c);
                }
            }
            assert forall|c: u64| c != client_id implies after.peer_of(c) == before.peer_of(c) by {
                if before.has_client(c) {
                    let i = choose|i: int| 0 <= i < before.members.len() && (#[trigger] before.members[i]).0
                        == c;
                    assert(after.members[i] == before.members[i]);
                    lemma_member_at(after, i);
                    lemma_member_at(before, i);
                }
            }
        }
        godot_pid
    }

    /// The clients of the room, in joining order.
    pub fn get_clients(&self) -> (r: Vec<u64>)
        ensures
            r@ == self@.clients(),
    {
        let mut out: Vec<u64> = Vec::new();
        let mut i: usize = 0;
        while i < self.peers.len()
            invariant
                i <= self.peers.len(),
                out@ == self@.clients().take(i as int),
            decreases self.peers.len() - i,
        {
            out.push(self.peers[i].0);
            assert(out@ =~= self@.clients().take(i + 1));
            i += 1;
        }
        assert(out@ =~= self@.clients());
        out
    }

    /// The peer id of `client_id`, if it is a member.
    pub fn client_to_gd(&self, client_id: u64) -> (r: Option<i32>)
        requires
            self@.wf(),
        ensures
            r == self@.peer_of(client_id),
    {
        match self.position(client_id) {
            Some(i) => {
                proof {
                    lemma_member_at(self@, i as int);
                }
                Some(self.peers[i].1)
            },
            None => None,
        }
    }

    /// The client that carries the peer id `godot_id`, if any does.
    pub fn gd_to_client(&self, godot_id: i32) -> (r: Option<u64>)
        requires
            self@.wf(),
        ensures
            r == self@.client_of(godot_id),
    {
        let mut i: usize = 0;
        while i < self.peers.len()
            invariant
                i <= self.peers.len(),
                self@.wf(),
                forall|k: int| 0 <= k < i ==> (#[trigger] self@.members[k]).1 != godot_id,
            decreases self.peers.len() - i,
        {
            if self.peers[i].1 == godot_id {
                proof {
                    lemma_member_at(self@, i as int);
                }
                return Some(self.peers[i].0);
            }
            i += 1;
        }
        None
    }

    /// The client that made the room.
    pub fn get_host(&self) -> (r: u64)
        ensures
            r == self@.host,
    {
        self.host_id
    }

    /// Whether the room has no member.
    pub fn is_empty(&self) -> (r: bool)
        ensures
            r == (self@.members.len() == 0),
    {
        self.peers.len() == 0
    }

    /// Takes `renet_id` out of the room. The other members keep their peer
    /// ids and their order; the id that is freed is not handed out again.
    /// Does nothing if `renet_id` is no member.
    pub fn remove_peer(&mut self, renet_id: u64)
        requires
            old(self)@.wf(),
        ensures
            final(self)@.wf(),
            final(self)@ == (RoomView { members: old(self)@.without(renet_id), ..old(self)@ }),
            !final(self)@.has_client(renet_id),
            forall|c: u64| c != renet_id ==> final(self)@.peer_of(c) == old(self)@.peer_of(c),
            forall|c: u64| c != renet_id ==> final(self)@.has_client(c) == old(self)@.has_client(c),
    {
        let ghost before = self@;
        match self.position(renet_id) {
            Some(i) => {
                self.peers.remove(i);
                proof {
                    lemma_without_is_remove(before, renet_id, i as int);
                    lemma_remove_member(before, i as int);
                }
            },
            None => {
                proof {
                    lemma_without_absent(before, renet_id);
                }
            },
        }
    }
}

/// Filtering out a client that is no member leaves the members as they are.
pub proof fn lemma_without_absent(room: RoomView, client: u64)
    requires
        !room.has_client(client),
    ensures
        room.without(client) == room.members,
{
    let keep = spec_is_other(client);
    assert forall|i: int| 0 <= i < room.members.len() implies keep(#[trigger] room.members[i]) by {
        assert(room.members[i].0 != client);
    }
    lemma_filter_all(room.members, keep);
}

proof fn lemma_filter_all<A>(s: Seq<A>, keep: spec_fn(A) -> bool)
    requires
        forall|i: int| 0 <= i < s.len() ==> keep(#[trigger] s[i]),
    ensures
        s.filter(keep) == s,
    decreases s.len(),
{
    reveal(Seq::filter);
    if s.len() > 0 {
        let front = s.drop_last();
        assert forall|i: int| 0 <= i < front.len() implies keep(#[trigger] front[i]) by {
            assert(front[i] == s[i]);
        }
        lemma_filter_all(front, keep);
        assert(keep(s[s.len() - 1]));
        assert(front.push(s.last()) =~= s);
    }
}

/// In a well-formed room, filtering out the client at index `at` is removing
/// that index.
pub proof fn lemma_without_is_remove(room: RoomView, client: u64, at: int)
    requires
        room.wf(),
        0 <= at < room.members.len(),
        room.members[at].0 == client,
    ensures
        room.without(client) == room.members.remove(at),
{
    let keep = spec_is_other(client);
    let s = room.members;
    let front = s.take(at);
    let back = s.skip(at + 1);
    assert(s =~= front + seq![s[at]] + back);
    assert forall|i: int| 0 <= i < front.len() implies keep(#[trigger] front[i]) by {
        assert(front[i] == s[i]);
        assert(s[i].0 != s[at].0);
    }
    assert forall|i: int| 0 <= i < back.len() implies keep(#[trigger] back[i]) by {
        assert(back[i] == s[at + 1 + i]);
        assert(s[at].0 != s[at + 1 + i].0);
    }
    lemma_filter_all(front, keep);
    lemma_filter_all(back, keep);
    Seq::filter_distributes_over_add(front + seq![s[at]], back, keep);
    Seq::filter_distributes_over_add(front, seq![s[at]], keep);
    assert(seq![s[at]].filter(keep) =~= Seq::<(u64, i32)>::empty()) by {
        reveal_with_fuel(Seq::filter, 2);
        assert(seq![s[at]].drop_last() =~= Seq::<(u64, i32)>::empty());
    }
    assert(s.remove(at) =~= front + back);
}

/// Removing the member at index `at` keeps the room well-formed, takes that
/// client out and leaves every other client with its peer id.
pub proof fn lemma_remove_member(room: RoomView, at: int)
    requires
        room.wf(),
        0 <= at < room.members.len(),
    ensures
        (RoomView { members: room.members.remove(at), ..room }).wf(),
        !(RoomView { members: room.members.remove(at), ..room }).has_client(room.members[at].0),
        forall|c: u64|
            c != room.members[at].0 ==> (RoomView { members: room.members.remove(at), ..room }).peer_of(c)
                == room.peer_of(c),
        forall|c: u64|
            c != room.members[at].0 ==> (RoomView { members: room.members.remove(at), ..room }).has_client(c)
                == room.has_client(c),
{
    let after = RoomView { members: room.members.remove(at), ..room };
    let gone = room.members[at].0;
    assert forall|i: int| 0 <= i < after.members.len() implies #[trigger] after.members[i] == room.members[if i
        < at {
        i
    } else {
        i + 1
    }] by {}
    assert(after.wf()) by {
        assert forall|i: int| 0 <= i < after.members.len() implies 1 <= (#[trigger] after.members[i]).1
            < after.next_peer_id by {
            let k = if i < at { i } else { i + 1 };
            assert(after.members[i] == room.members[k]);
        }
        assert forall|i: int, j: int| 0 <= i < j < after.members.len() implies (#[trigger] after.members[i]).0
            != (#[trigger] after.members[j]).0 by {
            let a = if i < at { i } else { i + 1 };
            let b = if j < at { j } else { j + 1 };
            assert(after.members[i] == room.members[a]);
            assert(after.members[j] == room.members[b]);
        }
        assert forall|i: int, j: int| 0 <= i < j < after.members.len() implies (#[trigger] after.members[i]).1
            != (#[trigger] after.members[j]).1 by {
            let a = if i < at { i } else { i + 1 };
            let b = if j < at { j } else { j + 1 };
            assert(after.members[i] == room.members[a]);
            assert(after.members[j] == room.members[b]);
        }
    }
    assert(!after.has_client(gone)) by {
        if after.has_client(gone) {
            let i = choose|i: int| 0 <= i < after.members.len() && (#[trigger] after.members[i]).0 == gone;
            let k = if i < at { i } else { i + 1 };
            assert(after.members[i] == room.members[k]);
            assert(room.members[k].0 == room.members[at].0);
        }
    }
    assert forall|c: u64| c != gone implies after.has_client(c) == room.has_client(c) && after.peer_of(c)
        == room.peer_of(c) by {
        if room.has_client(c) {
            let k = choose|k: int| 0 <= k < room.members.len() && (#[trigger] room.members[k]).0 == c;
            let i = if k < at { k } else { k - 1 };
            assert(after.members[i] == room.members[k]);
            lemma_member_at(room, k);
            lemma_member_at(after, i);
        }
        if after.has_client(c) {
            let i = choose|i: int| 0 <= i < after.members.len() && (#[trigger] after.members[i]).0 == c;
            let k = if i < at { i } else { i + 1 };
            assert(after.members[i] == room.members[k]);
        }
    }
}

/// The rooms of one application as mathematics sees them: the rooms in the
/// order of their making, the id that the next room gets, and the join codes
/// that are in use.
pub struct RoomsView {
    pub rooms: Seq<RoomView>,
    pub next_id: u64,
    pub codes: Set<Seq<char>>,
}

impl RoomsView {
    /// Whether a room numbered `id` is alive.
    pub open spec fn has_id(self, id: u64) -> bool {
        exists|i: int| 0 <= i < self.rooms.len() && (#[trigger] self.rooms[i]).id == id
    }

    /// Where the room numbered `id` stands.
    pub open spec fn index_of(self, id: u64) -> int {
        choose|i: int| 0 <= i < self.rooms.len() && (#[trigger] self.rooms[i]).id == id
    }

    /// The room numbered `id`.
    pub open spec fn by_id(self, id: u64) -> RoomView {
        self.rooms[self.index_of(id)]
    }

    /// Whether a room with the join code `code` is alive.
    pub open spec fn has_code(self, code: Seq<char>) -> bool {
        exists|i: int| 0 <= i < self.rooms.len() && (#[trigger] self.rooms[i]).join_code == code
    }

    /// The room with the join code `code`.
    pub open spec fn by_code(self, code: Seq<char>) -> RoomView {
        self.rooms[choose|i: int| 0 <= i < self.rooms.len() && (#[trigger] self.rooms[i]).join_code == code]
    }

    /// Whether `client` is a member of the room numbered `id`.
    pub open spec fn in_room(self, id: u64, client: u64) -> bool {
        self.has_id(id) && self.by_id(id).has_client(client)
    }

    /// The rooms with `room` in the place of the room that has its id.
    pub open spec fn with_room(self, room: RoomView) -> RoomsView {
        RoomsView { rooms: self.rooms.update(self.index_of(room.id), room), ..self }
    }

    /// Every room is well-formed and holds its host, no two rooms share an
    /// id or a join code, ids are below the next one to be minted, and the
    /// codes in use are exactly those of the rooms.
    pub open spec fn wf(self) -> bool {
        &&& forall|i: int|
            0 <= i < self.rooms.len() ==> {
                &&& (#[trigger] self.rooms[i]).wf()
                &&& self.rooms[i].hosted()
                &&& self.rooms[i].id < self.next_id
            }
        &&& forall|i: int, j: int|
            0 <= i < j < self.rooms.len() ==> (#[trigger] self.rooms[i]).id != (#[trigger] self.rooms[j]).id
        &&& forall|i: int, j: int|
            0 <= i < j < self.rooms.len() ==> (#[trigger] self.rooms[i]).join_code != (
            #[trigger] self.rooms[j]).join_code
        &&& forall|code: Seq<char>| self.codes.contains(code) <==> self.has_code(code)
    }
}

/// The members of `rooms`: room after room, each room's members in joining
/// order.
pub open spec fn spec_room_members(rooms: Seq<RoomView>) -> Seq<u64>
    decreases rooms.len(),
{
    if rooms.len() == 0 {
        Seq::empty()
    } else {
        spec_room_members(rooms.drop_last()) + rooms.last().clients()
    }
}

/// No two of `rooms` share an id.
pub open spec fn spec_ids_distinct(rooms: Seq<RoomView>) -> bool {
    forall|i: int, j: int| 0 <= i < j < rooms.len() ==> (#[trigger] rooms[i]).id != (#[trigger] rooms[j]).id
}

/// Where no two rooms share an id, the members of all rooms are exactly the
/// clients that are in some room.
pub proof fn lemma_room_members(v: RoomsView)
    requires
        spec_ids_distinct(v.rooms),
    ensures
        forall|c: u64| #[trigger]
            spec_room_members(v.rooms).contains(c) <==> exists|id: u64| #[trigger] v.in_room(id, c),
    decreases v.rooms.len(),
{
    let all = spec_room_members(v.rooms);
    if v.rooms.len() == 0 {
        assert forall|c: u64| #[trigger] all.contains(c) <==> exists|id: u64| #[trigger] v.in_room(id, c) by {
            if exists|id: u64| #[trigger] v.in_room(id, c) {
                let id = choose|id: u64| #[trigger] v.in_room(id, c);
                assert(v.has_id(id));
            }
        }
    } else {
        let front = RoomsView { rooms: v.rooms.drop_last(), ..v };
        let last = v.rooms.last();
        let n = front.rooms.len() as int;
        assert(spec_ids_distinct(front.rooms)) by {
            assert forall|i: int, j: int| 0 <= i < j < front.rooms.len() implies (#[trigger] front.rooms[i]).id != (
            #[trigger] front.rooms[j]).id by {
                assert(front.rooms[i] == v.rooms[i]);
                assert(front.rooms[j] == v.rooms[j]);
            }
        }
        lemma_room_members(front);
        let fa = spec_room_members(front.rooms);
        assert forall|c: u64| #[trigger] all.contains(c) <==> exists|id: u64| #[trigger] v.in_room(id, c) by {
            if all.contains(c) {
                let i = choose|i: int| 0 <= i < all.len() && all[i] == c;
                if i < fa.len() {
                    assert(fa[i] == c);
                    assert(fa.contains(c));
                    let id = choose|id: u64| #[trigger] front.in_room(id, c);
                    let k = front.index_of(id);
                    assert(v.rooms[k] == front.rooms[k]);
                    lemma_in_room_at(v, k, c);
                } else {
                    let m = i - fa.len();
                    assert(last.clients()[m] == c);
                    assert(last.members[m].0 == c);
                    assert(v.rooms[n] == last);
                    lemma_in_room_at(v, n, c);
                }
            }
            if exists|id: u64| #[trigger] v.in_room(id, c) {
                let id = choose|id: u64| #[trigger] v.in_room(id, c);
                let k = v.index_of(id);
                let room = v.rooms[k];
                let m = choose|m: int| 0 <= m < room.members.len() && (#[trigger] room.members[m]).0 == c;
                if k < n {
                    assert(front.rooms[k] == room);
                    lemma_in_room_at(front, k, c);
                    assert(fa.contains(c));
                    let i = choose|i: int| 0 <= i < fa.len() && fa[i] == c;
                    assert(all[i] == c);
                } else {
                    assert(last.clients()[m] == c);
                    assert(all[fa.len() + m] == c);
                }
            }
        }
    }
}

/// Where no two rooms share an id, a member of the room at index `k` is in
/// the room with that room's id.
proof fn lemma_in_room_at(v: RoomsView, k: int, c: u64)
    requires
        spec_ids_distinct(v.rooms),
        0 <= k < v.rooms.len(),
        v.rooms[k].has_client(c),
    ensures
        v.in_room(v.rooms[k].id, c),
{
    let id = v.rooms[k].id;
    let i = v.index_of(id);
    assert(v.has_id(id));
    if i < k {
        assert(v.rooms[i].id != v.rooms[k].id);
    } else if k < i {
        assert(v.rooms[k].id != v.rooms[i].id);
    }
}

/// The listing entries of the public rooms among `rooms`, in their order.
pub open spec fn spec_public_infos(rooms: Seq<RoomView>) -> Seq<RoomInfoView>
    decreases rooms.len(),
{
    if rooms.len() == 0 {
        Seq::empty()
    } else if rooms.last().is_public {
        spec_public_infos(rooms.drop_last()).push(rooms.last().info())
    } else {
        spec_public_infos(rooms.drop_last())
    }
}

/// Under `wf`, the room at index `i` is the one found by its id and by its
/// join code.
pub proof fn lemma_room_at(v: RoomsView, i: int)
    requires
        v.wf(),
        0 <= i < v.rooms.len(),
    ensures
        v.has_id(v.rooms[i].id),
        v.index_of(v.rooms[i].id) == i,
        v.by_id(v.rooms[i].id) == v.rooms[i],
        v.has_code(v.rooms[i].join_code),
        v.by_code(v.rooms[i].join_code) == v.rooms[i],
{
    let a = v.index_of(v.rooms[i].id);
    assert(a == i);
    let b = choose|b: int| 0 <= b < v.rooms.len() && (#[trigger] v.rooms[b]).join_code == v.rooms[i].join_code;
    assert(b == i);
}

/// Join codes are unique among the rooms that are alive: two rooms with the
/// same code are one room.
pub proof fn lemma_join_codes_unique(v: RoomsView, a: u64, b: u64)
    requires
        v.wf(),
        v.has_id(a),
        v.has_id(b),
        v.by_id(a).join_code == v.by_id(b).join_code,
    ensures
        a == b,
{
    let i = v.index_of(a);
    let j = v.index_of(b);
    if i < j {
        assert(v.rooms[i].join_code != v.rooms[j].join_code);
    } else if j < i {
        assert(v.rooms[j].join_code != v.rooms[i].join_code);
    }
}

/// A room that is destroyed frees its join code at once, and no sooner: the
/// code is in use for as long as the room is alive, and free for the next
/// room right after.
pub proof fn lemma_code_freed_on_removal(v: RoomsView, id: u64)
    requires
        v.wf(),
        v.has_id(id),
    ensures
        v.codes.contains(v.by_id(id).join_code),
        ({
            let after = RoomsView {
                rooms: v.rooms.remove(v.index_of(id)),
                codes: v.codes.remove(v.by_id(id).join_code),
                ..v
            };
            after.wf() && !after.has_code(v.by_id(id).join_code)
        }),
{
    let at = v.index_of(id);
    let after = RoomsView { rooms: v.rooms.remove(at), codes: v.codes.remove(v.by_id(id).join_code), ..v };
    lemma_room_at(v, at);
    lemma_remove_room(v, after, at);
}

/// The rooms of one application, found by id or by join code.
pub struct Rooms {
    rooms: Vec<Room>,
    next_id: u64,
    join_codes: RoomIds,
}

impl View for Rooms {
    type V = RoomsView;

    closed spec fn view(&self) -> RoomsView {
        RoomsView {
            rooms: self.rooms@.map_values(|r: Room| r@),
            next_id: self.next_id,
            codes: self.join_codes@,
        }
    }
}

impl Rooms {
    /// The rooms are well-formed; see `RoomsView::wf`.
    pub open spec fn wf(&self) -> bool {
        self@.wf()
    }

    /// No room yet; the first will be numbered zero.
    pub fn new() -> (r: Self)
        ensures
            r.wf(),
            r@ == (RoomsView { rooms: Seq::empty(), next_id: 0, codes: Set::empty() }),
    {
        let r = Self { rooms: Vec::new(), next_id: 0, join_codes: RoomIds::new() };
        assert(r@.rooms =~= Seq::empty());
        r
    }

    fn find(&self, id: u64) -> (r: Option<usize>)
        ensures
            match r {
                Some(i) => i < self@.rooms.len() && self@.rooms[i as int].id == id,
                None => !self@.has_id(id),
            },
    {
        let mut i: usize = 0;
        while i < self.rooms.len()
            invariant
                i <= self.rooms.len(),
                forall|k: int| 0 <= k < i ==> (#[trigger] self@.rooms[k]).id != id,
            decreases self.rooms.len() - i,
        {
            if self.rooms[i].id() == id {
                return Some(i);
            }
            i += 1;
        }
        None
    }

    fn find_by_jc(&self, jc: &str) -> (r: Option<usize>)
        ensures
            match r {
                Some(i) => i < self@.rooms.len() && self@.rooms[i as int].join_code == jc@,
                None => !self@.has_code(jc@),
            },
    {
        let mut i: usize = 0;
        while i < self.rooms.len()
            invariant
                i <= self.rooms.len(),
                forall|k: int| 0 <= k < i ==> (#[trigger] self@.rooms[k]).join_code != jc@,
            decreases self.rooms.len() - i,
        {
            if str_eq(self.rooms[i].join_code().as_str(), jc) {
                return Some(i);
            }
            i += 1;
        }
        None
    }

    /// Whether a room of this application carries the join code `code`.
    pub fn has_code(&self, code: &str) -> (r: bool)
        ensures
            r == self@.codes.contains(code@),
    {
        self.join_codes.is_used(code)
    }

    /// Goes through the rooms in the order of their making.
    pub fn iter(&self) -> (r: std::slice::Iter<'_, Room>)
        ensures
            r.remaining().len() == self@.rooms.len(),
            forall|i: int| 0 <= i < self@.rooms.len() ==> (#[trigger] r.remaining()[i])@ == self@.rooms[i],
    {
        self.rooms.as_slice().iter()
    }

    /// How many rooms are alive.
    pub fn len(&self) -> (r: usize)
        ensures
            r == self@.rooms.len(),
    {
        self.rooms.len()
    }

    /// The rooms in the order of their making.
    pub fn as_slice(&self) -> (r: &[Room])
        ensures
            r@.map_values(|room: Room| room@) == self@.rooms,
    {
        self.rooms.as_slice()
    }

    /// Makes a room under the join code `join_code`, with `host_id` as its
    /// host and its first peer (peer id 1), and returns the room's id.
    /// Refuses, changing nothing, when the code is in use or no room id is
    /// left.
    pub fn create_with_code(
        &mut self,
        join_code: String,
        host_id: u64,
        is_public: bool,
        metadata: String,
    ) -> (r: Option<u64>)
        requires
            old(self).wf(),
        ensures
            final(self).wf(),
            r is Some <==> !old(self)@.codes.contains(join_code@) && old(self)@.next_id < u64::MAX,
            r is None ==> final(self)@ == old(self)@,
            r is Some ==> {
                &&& r->0 == old(self)@.next_id
                &&& final(self)@ == (RoomsView {
                    rooms: old(self)@.rooms.push(spec_fresh_room(r->0, join_code@, host_id, is_public, metadata@)),
                    next_id: (r->0 + 1) as u64,
                    codes: old(self)@.codes.insert(join_code@),
                })
                &&& !old(self)@.has_id(r->0)
                &&& final(self)@.has_id(r->0)
                &&& final(self)@.by_id(r->0) == spec_fresh_room(r->0, join_code@, host_id, is_public, metadata@)
                &&& forall|room: u64, c: u64|
                    #![trigger final(self)@.in_room(room, c)]
                    #![trigger old(self)@.in_room(room, c)]
                    final(self)@.in_room(room, c) <==> old(self)@.in_room(room, c) || (room == r->0 && c
                        == host_id)
            },
    {
        if self.next_id == u64::MAX || self.join_codes.is_used(join_code.as_str()) {
            return None;
        }
        let copy = join_code.clone();
        self.join_codes.claim(copy);
        let room_id = self.next_id;
        self.next_id += 1;
        let mut room = Room::new(room_id, join_code, host_id, is_public, metadata);
        room.add_peer(host_id);
        let ghost made = room@;
        self.rooms.push(room);
        proof {
            let before = old(self)@;
            let after = self@;
            assert(made.members =~= seq![(host_id, 1i32)]);
            assert(made == spec_fresh_room(room_id, join_code@, host_id, is_public, metadata@));
            assert(after.rooms =~= before.rooms.push(made));
            lemma_push_room(before, made);
            lemma_push_lookup(before, after, made);
            assert(made.has_client(host_id) && forall|c: u64| made.has_client(c) ==> c == host_id) by {
                assert(made.members[0].0 == host_id);
            }
        }
        Some(room_id)
    }

    /// Makes a room with `host_id` as its host and its first peer (peer id
    /// 1), under a join code that no room of this application carries, and
    /// returns the room's id. Returns `None`, changing nothing, when no room
    /// id or no join code is left. Where several applications share one
    /// relay, `Apps::fresh_code` finds a code that none of them uses, for
    /// `create_with_code`.
    pub fn create(&mut self, host_id: u64, is_public: bool, metadata: String) -> (r: Option<u64>)
        requires
            old(self).wf(),
        ensures
            final(self).wf(),
            r is None <==> old(self)@.next_id == u64::MAX || spec_codes_exhausted(old(self)@.codes),
            r is None ==> final(self)@ == old(self)@,
            r is Some ==> exists|code: Seq<char>|
                {
                    &&& spec_is_join_code(code)
                    &&& !old(self)@.codes.contains(code)
                    &&& r->0 == old(self)@.next_id
                    &&& final(self)@ == (RoomsView {
                        rooms: old(self)@.rooms.push(
                            spec_fresh_room(r->0, code, host_id, is_public, metadata@),
                        ),
                        next_id: (r->0 + 1) as u64,
                        codes: old(self)@.codes.insert(code),
                    })
                    &&& final(self)@.by_id(r->0) == spec_fresh_room(r->0, code, host_id, is_public, metadata@)
                },
            r is Some ==> {
                &&& !old(self)@.has_id(r->0)
                &&& final(self)@.has_id(r->0)
                &&& forall|room: u64, c: u64|
                    #![trigger final(self)@.in_room(room, c)]
                    #![trigger old(self)@.in_room(room, c)]
                    final(self)@.in_room(room, c) <==> old(self)@.in_room(room, c) || (room == r->0 && c
                        == host_id)
            },
    {
        if self.next_id == u64::MAX {
            return None;
        }
        match self.join_codes.generate() {
            None => None,
            Some(join_code) => {
                let room_id = self.next_id;
                self.next_id += 1;
                let mut room = Room::new(room_id, join_code, host_id, is_public, metadata);
                room.add_peer(host_id);
                let ghost made = room@;
                self.rooms.push(room);
                proof {
                    let before = old(self)@;
                    let after = self@;
                    assert(made.members =~= seq![(host_id, 1i32)]);
                    assert(made == spec_fresh_room(room_id, join_code@, host_id, is_public, metadata@));
                    assert(after.rooms =~= before.rooms.push(made));
                    lemma_push_room(before, made);
                    lemma_push_lookup(before, after, made);
                    assert(made.has_client(host_id) && forall|c: u64| made.has_client(c) ==> c == host_id) by {
                        assert(made.members[0].0 == host_id);
                    }
            lemma_push_lookup(before, after, made);
            assert(made.has_client(host_id) && forall|c: u64| made.has_client(c) ==> c == host_id) by {
                assert(made.members[0].0 == host_id);
            }
                }
                Some(room_id)
            },
        }
    }

    /// The room numbered `id`, if it is alive.
    pub fn get(&self, id: u64) -> (r: Option<&Room>)
        requires
            self.wf(),
        ensures
            r is Some <==> self@.has_id(id),
            r is Some ==> r->0@ == self@.by_id(id),
    {
        match self.find(id) {
            Some(i) => {
                proof {
                    lemma_room_at(self@, i as int);
                }
                Some(&self.rooms[i])
            },
            None => None,
        }
    }

    /// The room with the join code `jc`, if it is alive.
    pub fn get_by_jc(&self, jc: &str) -> (r: Option<&Room>)
        requires
            self.wf(),
        ensures
            r is Some <==> self@.has_code(jc@),
            r is Some ==> r->0@ == self@.by_code(jc@),
    {
        match self.find_by_jc(jc) {
            Some(i) => {
                proof {
                    lemma_room_at(self@, i as int);
                }
                Some(&self.rooms[i])
            },
            None => None,
        }
    }

    /// The room numbered `id`, to be changed in place. What the caller makes
    /// of the room stands in its place afterwards; the rooms stay
    /// well-formed if the changed room is well-formed and still holds its
    /// host (see `lemma_with_room`).
    pub fn get_mut(&mut self, id: u64) -> (r: Option<&mut Room>)
        requires
            old(self).wf(),
        ensures
            r is Some <==> old(self)@.has_id(id),
            r is None ==> final(self)@ == old(self)@,
            r is Some ==> r.unwrap()@ == old(self)@.by_id(id) && final(self)@ == (RoomsView {
                rooms: old(self)@.rooms.update(old(self)@.index_of(id), final(r.unwrap())@),
                ..old(self)@
            }),
    {
        match self.find(id) {
            Some(i) => {
                proof {
                    lemma_room_at(self@, i as int);
                }
                let ghost before = self@;
                let room = &mut self.rooms[i];
                proof {
                    assert(after_borrow(self)@.rooms =~= before.rooms.update(i as int, final(room)@));
                }
                Some(room)
            },
            None => None,
        }
    }

    /// The room with the join code `jc`, to be changed in place, on the
    /// terms of `get_mut`.
    pub fn get_by_jc_mut(&mut self, jc: &str) -> (r: Option<&mut Room>)
        requires
            old(self).wf(),
        ensures
            r is Some <==> old(self)@.has_code(jc@),
            r is None ==> final(self)@ == old(self)@,
            r is Some ==> r.unwrap()@ == old(self)@.by_code(jc@) && final(self)@ == (RoomsView {
                rooms: old(self)@.rooms.update(
                    old(self)@.index_of(old(self)@.by_code(jc@).id),
                    final(r.unwrap())@,
                ),
                ..old(self)@
            }),
    {
        match self.find_by_jc(jc) {
            Some(i) => {
                proof {
                    lemma_room_at(self@, i as int);
                }
                let ghost before = self@;
                let room = &mut self.rooms[i];
                proof {
                    assert(after_borrow(self)@.rooms =~= before.rooms.update(i as int, final(room)@));
                }
                Some(room)
            },
            None => None,
        }
    }

    /// Destroys the room numbered `id` and frees its join code. Returns the
    /// room, or `None` if there was none.
    pub fn remove(&mut self, id: u64) -> (r: Option<Room>)
        requires
            old(self).wf(),
        ensures
            final(self).wf(),
            r is Some <==> old(self)@.has_id(id),
            r is None ==> final(self)@ == old(self)@,
            r is Some ==> {
                &&& r->0@ == old(self)@.by_id(id)
                &&& final(self)@ == (RoomsView {
                    rooms: old(self)@.rooms.remove(old(self)@.index_of(id)),
                    codes: old(self)@.codes.remove(r->0@.join_code),
                    ..old(self)@
                })
            },
            !final(self)@.has_id(id),
            forall|other: u64|
                other != id ==> final(self)@.has_id(other) == #[trigger] old(self)@.has_id(other) && (old(self)@.has_id(other) ==> final(self)@.by_id(other) == old(self)@.by_id(other)),
            forall|room: u64, c: u64|
                #![trigger final(self)@.in_room(room, c)]
                #![trigger old(self)@.in_room(room, c)]
                final(self)@.in_room(room, c) <==> old(self)@.in_room(room, c) && room != id,
    {
        match self.find(id) {
            None => None,
            Some(i) => {
                proof {
                    lemma_room_at(self@, i as int);
                }
                let r = self.rooms.remove(i);
                self.join_codes.free(r.join_code().as_str());
                proof {
                    let before = old(self)@;
                    let after = self@;
                    assert(after.rooms =~= before.rooms.remove(i as int));
                    lemma_remove_room(before, after, i as int);
                    assert forall|room: u64, c: u64|
                        #![trigger after.in_room(room, c)]
                        #![trigger before.in_room(room, c)]
                        after.in_room(room, c) <==> before.in_room(room, c) && room != id by {
                        if room != id {
                            assert(after.has_id(room) == before.has_id(room));
                        }
                    }
                }
                Some(r)
            },
        }
    }

    /// Takes `client_id` into the room numbered `id` and returns its peer
    /// id. Refuses, changing nothing, when there is no such room, when the
    /// client is in it already, or when the room has no peer id left.
    pub fn add_peer(&mut self, id: u64, client_id: u64) -> (r: Option<i32>)
        requires
            old(self).wf(),
        ensures
            final(self).wf(),
            r is Some <==> old(self)@.has_id(id) && !old(self)@.by_id(id).has_client(client_id) && old(self)@.by_id(id).next_peer_id < i32::MAX,
            r is None ==> final(self)@ == old(self)@,
            r is Some ==> {
                &&& r->0 == old(self)@.by_id(id).next_peer_id
                &&& final(self)@ == old(self)@.with_room(
                    RoomView {
                        members: old(self)@.by_id(id).members.push((client_id, r->0)),
                        next_peer_id: (r->0 + 1) as i32,
                        ..old(self)@.by_id(id)
                    },
                )
                &&& final(self)@.by_id(id).peer_of(client_id) == Some(r->0)
                &&& forall|room: u64, c: u64|
                    #![trigger final(self)@.in_room(room, c)]
                    #![trigger old(self)@.in_room(room, c)]
                    final(self)@.in_room(room, c) <==> old(self)@.in_room(room, c) || (room == id && c
                        == client_id)
            },
            forall|room: u64| final(self)@.has_id(room) == #[trigger] old(self)@.has_id(room),
    {
        match self.find(id) {
            None => None,
            Some(i) => {
                proof {
                    lemma_room_at(self@, i as int);
                }
                if !self.rooms[i].can_add(client_id) {
                    return None;
                }
                let ghost before = self@;
                let room = &mut self.rooms[i];
                let peer = room.add_peer(client_id);
                proof {
                    let changed = self@.rooms[i as int];
                    assert(changed.hosted()) by {
                        assert(before.rooms[i as int].hosted());
                    }
                    assert(self@.rooms =~= before.rooms.update(i as int, changed));
                    lemma_with_room(before, changed);
                    lemma_in_room_after(before, self@, changed);
                }
                Some(peer)
            },
        }
    }

    /// Takes `client_id` out of the room numbered `id`, unless it is the
    /// room's host: a room never loses its host, it is removed with it. Says
    /// whether the client was taken out.
    pub fn remove_peer(&mut self, id: u64, client_id: u64) -> (r: bool)
        requires
            old(self).wf(),
        ensures
            final(self).wf(),
            r <==> old(self)@.has_id(id) && old(self)@.by_id(id).has_client(client_id) && old(self)@.by_id(
                id,
            ).host != client_id,
            !r ==> final(self)@ == old(self)@,
            r ==> final(self)@ == old(self)@.with_room(
                RoomView { members: old(self)@.by_id(id).without(client_id), ..old(self)@.by_id(id) },
            ),
            r ==> forall|room: u64, c: u64|
                #![trigger final(self)@.in_room(room, c)]
                #![trigger old(self)@.in_room(room, c)]
                final(self)@.in_room(room, c) <==> old(self)@.in_room(room, c) && !(room == id && c == client_id),
            forall|room: u64| final(self)@.has_id(room) == #[trigger] old(self)@.has_id(room),
    {
        match self.find(id) {
            None => false,
            Some(i) => {
                proof {
                    lemma_room_at(self@, i as int);
                }
                if self.rooms[i].get_host() == client_id || self.rooms[i].client_to_gd(client_id).is_none() {
                    return false;
                }
                let ghost before = self@;
                let room = &mut self.rooms[i];
                room.remove_peer(client_id);
                proof {
                    let changed = self@.rooms[i as int];
                    assert(before.rooms[i as int].hosted());
                    assert(self@.rooms =~= before.rooms.update(i as int, changed));
                    lemma_with_room(before, changed);
                    lemma_in_room_after(before, self@, changed);
                }
                true
            },
        }
    }

    /// Replaces the free-form text of the room numbered `id`. Says whether
    /// there is such a room.
    pub fn set_metadata(&mut self, id: u64, metadata: String) -> (r: bool)
        requires
            old(self).wf(),
        ensures
            final(self).wf(),
            r == old(self)@.has_id(id),
            !r ==> final(self)@ == old(self)@,
            r ==> final(self)@ == old(self)@.with_room(
                RoomView { metadata: metadata@, ..old(self)@.by_id(id) },
            ),
            forall|room: u64| final(self)@.has_id(room) == #[trigger] old(self)@.has_id(room),
            forall|room: u64, c: u64|
                #![trigger final(self)@.in_room(room, c)]
                #![trigger old(self)@.in_room(room, c)]
                final(self)@.in_room(room, c) <==> old(self)@.in_room(room, c),
    {
        match self.find(id) {
            None => false,
            Some(i) => {
                proof {
                    lemma_room_at(self@, i as int);
                }
                let ghost before = self@;
                let room = &mut self.rooms[i];
                room.set_metadata(metadata);
                proof {
                    let changed = self@.rooms[i as int];
                    assert(changed.hosted()) by {
                        assert(before.rooms[i as int].hosted());
                        let k = choose|k: int| 0 <= k < before.rooms[i as int].members.len() && (
                        #[trigger] before.rooms[i as int].members[k]).0 == before.rooms[i as int].host;
                        assert(changed.members[k].0 == changed.host);
                    }
                    assert(self@.rooms =~= before.rooms.update(i as int, changed));
                    lemma_with_room(before, changed);
                    lemma_in_room_after(before, self@, changed);
                }
                true
            },
        }
    }

    /// Destroys every room and frees every join code. Room ids are not
    /// handed out again.
    pub fn clear(&mut self)
        ensures
            final(self)@ == (RoomsView { rooms: Seq::empty(), codes: Set::empty(), ..old(self)@ }),
            final(self).wf(),
    {
        self.rooms = Vec::new();
        self.join_codes = RoomIds::new();
        assert(self@.rooms =~= Seq::empty());
    }

    /// The members of all rooms: room after room in the order of their
    /// making, each room's members in joining order.
    pub fn all_clients(&self) -> (r: Vec<u64>)
        ensures
            r@ == spec_room_members(self@.rooms),
    {
        let mut out: Vec<u64> = Vec::new();
        let mut i: usize = 0;
        while i < self.rooms.len()
            invariant
                i <= self.rooms.len(),
                out@ == spec_room_members(self@.rooms.take(i as int)),
            decreases self.rooms.len() - i,
        {
            assert(self@.rooms.take(i + 1).drop_last() =~= self@.rooms.take(i as int));
            assert(self@.rooms.take(i + 1).last() == self@.rooms[i as int]);
            let mut members = self.rooms[i].get_clients();
            out.append(&mut members);
            i += 1;
        }
        assert(self@.rooms.take(i as int) =~= self@.rooms);
        out
    }

    /// The listing entries of the public rooms, in the order of their making.
    pub fn public_rooms(&self) -> (r: Vec<RoomInfo>)
        ensures
            r@.map_values(|info: RoomInfo| info@) == spec_public_infos(self@.rooms),
    {
        let mut out: Vec<RoomInfo> = Vec::new();
        let mut i: usize = 0;
        while i < self.rooms.len()
            invariant
                i <= self.rooms.len(),
                out@.map_values(|info: RoomInfo| info@) == spec_public_infos(self@.rooms.take(i as int)),
            decreases self.rooms.len() - i,
        {
            let ghost before = out@.map_values(|info: RoomInfo| info@);
            assert(self@.rooms.take(i + 1).drop_last() =~= self@.rooms.take(i as int));
            assert(self@.rooms.take(i + 1).last() == self@.rooms[i as int]);
            if self.rooms[i].is_public() {
                let info = self.rooms[i].to_info();
                out.push(info);
                assert(out@.map_values(|info: RoomInfo| info@) =~= before.push(self@.rooms[i as int].info()));
            }
            i += 1;
        }
        assert(self@.rooms.take(i as int) =~= self@.rooms);
        out
    }
}

/// A room as it is right after its making: the host is its only member, with
/// peer id 1.
pub open spec fn spec_fresh_room(
    id: u64,
    join_code: Seq<char>,
    host: u64,
    is_public: bool,
    metadata: Seq<char>,
) -> RoomView {
    RoomView { id, join_code, is_public, metadata, host, members: seq![(host, 1i32)], next_peer_id: 2 }
}

proof fn lemma_push_room(before: RoomsView, made: RoomView)
    requires
        before.wf(),
        made.wf(),
        made.hosted(),
        made.id == before.next_id,
        before.next_id < u64::MAX,
        !before.codes.contains(made.join_code),
    ensures
        (RoomsView {
            rooms: before.rooms.push(made),
            next_id: (before.next_id + 1) as u64,
            codes: before.codes.insert(made.join_code),
        }).wf(),
{
    let after = RoomsView {
        rooms: before.rooms.push(made),
        next_id: (before.next_id + 1) as u64,
        codes: before.codes.insert(made.join_code),
    };
    let n = before.rooms.len() as int;
    assert forall|i: int| 0 <= i < n implies #[trigger] after.rooms[i] == before.rooms[i] by {}
    assert(after.rooms[n] == made);
    assert forall|i: int, j: int| 0 <= i < j < after.rooms.len() implies (#[trigger] after.rooms[i]).id != (
    #[trigger] after.rooms[j]).id by {
        if j == n {
            assert(before.rooms[i].id < before.next_id);
        }
    }
    assert forall|i: int, j: int| 0 <= i < j < after.rooms.len() implies (#[trigger] after.rooms[i]).join_code
        != (#[trigger] after.rooms[j]).join_code by {
        if j == n {
            assert(before.has_code(before.rooms[i].join_code));
        }
    }
    assert forall|code: Seq<char>| after.codes.contains(code) <==> after.has_code(code) by {
        if before.has_code(code) {
            let i = choose|i: int| 0 <= i < before.rooms.len() && (#[trigger] before.rooms[i]).join_code == code;
            assert(after.rooms[i].join_code == code);
        }
        if after.has_code(code) && code != made.join_code {
            let i = choose|i: int| 0 <= i < after.rooms.len() && (#[trigger] after.rooms[i]).join_code == code;
            assert(before.rooms[i].join_code == code);
        }
    }
}

/// Putting a changed room in the place of the room with its id keeps the
/// rooms well-formed, as long as the room is well-formed, holds its host and
/// kept its join code. Every other room stays as it was.
pub proof fn lemma_with_room(before: RoomsView, room: RoomView)
    requires
        before.wf(),
        before.has_id(room.id),
        room.wf(),
        room.hosted(),
        room.join_code == before.by_id(room.id).join_code,
    ensures
        before.with_room(room).wf(),
        before.with_room(room).has_id(room.id),
        before.with_room(room).by_id(room.id) == room,
        forall|other: u64| before.with_room(room).has_id(other) == #[trigger] before.has_id(other),
        forall|other: u64|
            other != room.id && #[trigger] before.has_id(other) ==> before.with_room(room).by_id(other)
                == before.by_id(other),
{
    let at = before.index_of(room.id);
    let after = before.with_room(room);
    lemma_room_at(before, at);
    assert forall|i: int| 0 <= i < after.rooms.len() implies (#[trigger] after.rooms[i]).id == before.rooms[i].id
        && after.rooms[i].join_code == before.rooms[i].join_code by {}
    assert forall|code: Seq<char>| after.codes.contains(code) <==> after.has_code(code) by {
        if before.has_code(code) {
            let i = choose|i: int| 0 <= i < before.rooms.len() && (#[trigger] before.rooms[i]).join_code == code;
            assert(after.rooms[i].join_code == code);
        }
        if after.has_code(code) {
            let i = choose|i: int| 0 <= i < after.rooms.len() && (#[trigger] after.rooms[i]).join_code == code;
            assert(before.rooms[i].join_code == code);
        }
    }
    assert forall|i: int, j: int| 0 <= i < j < after.rooms.len() implies (#[trigger] after.rooms[i]).id != (
    #[trigger] after.rooms[j]).id by {
        assert(before.rooms[i].id != before.rooms[j].id);
    }
    assert forall|i: int, j: int| 0 <= i < j < after.rooms.len() implies (#[trigger] after.rooms[i]).join_code
        != (#[trigger] after.rooms[j]).join_code by {
        assert(before.rooms[i].join_code != before.rooms[j].join_code);
    }
    assert(after.wf());
    lemma_room_at(after, at);
    assert forall|other: u64| after.has_id(other) == #[trigger] before.has_id(other) by {
        if before.has_id(other) {
            let i = before.index_of(other);
            assert(after.rooms[i].id == other);
        }
        if after.has_id(other) {
            let i = after.index_of(other);
            assert(before.rooms[i].id == other);
        }
    }
    assert forall|other: u64| other != room.id && #[trigger] before.has_id(other) implies after.by_id(other)
        == before.by_id(other) by {
        let i = before.index_of(other);
        assert(after.rooms[i] == before.rooms[i]);
        lemma_room_at(after, i);
    }
}

/// Membership after a room was changed in place: the changed room decides
/// on its own members, every other room is as it was.
proof fn lemma_in_room_after(before: RoomsView, after: RoomsView, room: RoomView)
    requires
        after.has_id(room.id),
        after.by_id(room.id) == room,
        forall|other: u64| after.has_id(other) == #[trigger] before.has_id(other),
        forall|other: u64| other != room.id && #[trigger] before.has_id(other) ==> after.by_id(other) == before.by_id(other),
    ensures
        forall|id: u64, c: u64|
            #![trigger after.in_room(id, c)]
            #![trigger before.in_room(id, c)]
            after.in_room(id, c) <==> (if id == room.id {
                room.has_client(c)
            } else {
                before.in_room(id, c)
            }),
{
    assert forall|id: u64, c: u64|
        #![trigger after.in_room(id, c)]
        #![trigger before.in_room(id, c)]
        after.in_room(id, c) <==> (if id == room.id {
            room.has_client(c)
        } else {
            before.in_room(id, c)
        }) by {
        if id != room.id {
            assert(after.has_id(id) == before.has_id(id));
        }
    }
}

/// Lookups after a room was added at the end.
proof fn lemma_push_lookup(before: RoomsView, after: RoomsView, made: RoomView)
    requires
        before.wf(),
        after.wf(),
        made.id == before.next_id,
        after.rooms == before.rooms.push(made),
    ensures
        !before.has_id(made.id),
        after.has_id(made.id),
        after.by_id(made.id) == made,
        forall|other: u64| other != made.id ==> after.has_id(other) == #[trigger] before.has_id(other),
        forall|other: u64| #[trigger] before.has_id(other) ==> after.by_id(other) == before.by_id(other),
        forall|id: u64, c: u64|
            #![trigger after.in_room(id, c)]
            #![trigger before.in_room(id, c)]
            after.in_room(id, c) <==> before.in_room(id, c) || (id == made.id && made.has_client(c)),
{
    let n = before.rooms.len() as int;
    assert(after.rooms[n] == made);
    lemma_room_at(after, n);
    if before.has_id(made.id) {
        let i = before.index_of(made.id);
        assert(before.rooms[i].id < before.next_id);
    }
    assert forall|other: u64| other != made.id implies after.has_id(other) == #[trigger] before.has_id(other) by {
        if before.has_id(other) {
            let i = before.index_of(other);
            assert(after.rooms[i] == before.rooms[i]);
        }
        if after.has_id(other) {
            let i = after.index_of(other);
            assert(after.rooms[i] == before.rooms[i]);
        }
    }
    assert forall|other: u64| #[trigger] before.has_id(other) implies after.by_id(other) == before.by_id(other) by {
        let i = before.index_of(other);
        assert(after.rooms[i] == before.rooms[i]);
        lemma_room_at(after, i);
    }
    assert forall|id: u64, c: u64|
        #![trigger after.in_room(id, c)]
        #![trigger before.in_room(id, c)]
        after.in_room(id, c) <==> before.in_room(id, c) || (id == made.id && made.has_client(c)) by {
        if id != made.id {
            assert(after.has_id(id) == before.has_id(id));
        }
    }
}

/// Removing the room at index `at` and freeing its join code keeps the
/// rooms well-formed; every other room stays as it was, with its members.
pub proof fn lemma_remove_room(before: RoomsView, after: RoomsView, at: int)
    requires
        before.wf(),
        0 <= at < before.rooms.len(),
        after == (RoomsView {
            rooms: before.rooms.remove(at),
            codes: before.codes.remove(before.rooms[at].join_code),
            ..before
        }),
    ensures
        after.wf(),
        !after.has_id(before.rooms[at].id),
        forall|other: u64|
            other != before.rooms[at].id ==> after.has_id(other) == #[trigger] before.has_id(other) && (
            before.has_id(other) ==> after.by_id(other) == before.by_id(other)),
        forall|room: u64, c: u64|
            #![trigger after.in_room(room, c)]
            #![trigger before.in_room(room, c)]
            after.in_room(room, c) <==> before.in_room(room, c) && room != before.rooms[at].id,
{
    let gone = before.rooms[at];
    assert forall|i: int| 0 <= i < after.rooms.len() implies #[trigger] after.rooms[i] == before.rooms[if i < at {
        i
    } else {
        i + 1
    }] by {}
    assert forall|i: int, j: int| 0 <= i < j < after.rooms.len() implies (#[trigger] after.rooms[i]).id != (
    #[trigger] after.rooms[j]).id by {
        let a = if i < at { i } else { i + 1 };
        let b = if j < at { j } else { j + 1 };
        assert(after.rooms[i] == before.rooms[a]);
        assert(after.rooms[j] == before.rooms[b]);
    }
    assert forall|i: int, j: int| 0 <= i < j < after.rooms.len() implies (#[trigger] after.rooms[i]).join_code
        != (#[trigger] after.rooms[j]).join_code by {
        let a = if i < at { i } else { i + 1 };
        let b = if j < at { j } else { j + 1 };
        assert(after.rooms[i] == before.rooms[a]);
        assert(after.rooms[j] == before.rooms[b]);
    }
    assert forall|i: int| 0 <= i < after.rooms.len() implies (#[trigger] after.rooms[i]).wf()
        && after.rooms[i].hosted() && after.rooms[i].id < after.next_id by {
        let a = if i < at { i } else { i + 1 };
        assert(after.rooms[i] == before.rooms[a]);
    }
    assert forall|code: Seq<char>| after.codes.contains(code) <==> after.has_code(code) by {
        if after.has_code(code) {
            let i = choose|i: int| 0 <= i < after.rooms.len() && (#[trigger] after.rooms[i]).join_code == code;
            let a = if i < at { i } else { i + 1 };
            assert(after.rooms[i] == before.rooms[a]);
            assert(before.has_code(code));
            if code == gone.join_code {
                if a < at {
                    assert(before.rooms[a].join_code != before.rooms[at].join_code);
                } else {
                    assert(before.rooms[at].join_code != before.rooms[a].join_code);
                }
            }
        }
        if before.has_code(code) && code != gone.join_code {
            let a = choose|a: int| 0 <= a < before.rooms.len() && (#[trigger] before.rooms[a]).join_code == code;
            let i = if a < at { a } else { a - 1 };
            assert(after.rooms[i] == before.rooms[a]);
        }
    }
    assert(after.wf());
    assert(!after.has_id(gone.id)) by {
        if after.has_id(gone.id) {
            let i = choose|i: int| 0 <= i < after.rooms.len() && (#[trigger] after.rooms[i]).id == gone.id;
            let a = if i < at { i } else { i + 1 };
            assert(after.rooms[i] == before.rooms[a]);
            if a < at {
                assert(before.rooms[a].id != before.rooms[at].id);
            } else {
                assert(before.rooms[at].id != before.rooms[a].id);
            }
        }
    }
    assert forall|other: u64| other != gone.id implies after.has_id(other) == before.has_id(other) && (
    before.has_id(other) ==> after.by_id(other) == before.by_id(other)) by {
        if before.has_id(other) {
            let a = before.index_of(other);
            let i = if a < at { a } else { a - 1 };
            assert(after.rooms[i] == before.rooms[a]);
            lemma_room_at(after, i);
        }
        if after.has_id(other) {
            let i = after.index_of(other);
            let a = if i < at { i } else { i + 1 };
            assert(after.rooms[i] == before.rooms[a]);
        }
    }
    assert forall|room: u64, c: u64|
        #![trigger after.in_room(room, c)]
        #![trigger before.in_room(room, c)]
        after.in_room(room, c) <==> before.in_room(room, c) && room != gone.id by {
        if room != gone.id {
            assert(after.has_id(room) == before.has_id(room));
        }
    }
}

} // verus!
