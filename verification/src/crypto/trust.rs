//! Safety numbers, by which two people make sure out of band that no one stands between them, and
//! the contacts that were verified so.
use crate::crypto::primitives;
use crate::text;
use vstd::prelude::*;
use vstd::string::*;
use vstd::utf8::*;

verus! {

/// The number that bytes stand for, the lowest first.
pub open spec fn little_endian(bytes: Seq<u8>) -> nat
    decreases bytes.len(),
{
    if bytes.len() == 0 {
        0
    } else {
        bytes[0] as nat + 256 * little_endian(bytes.skip(1))
    }
}

/// The last five decimal digits of a number.
pub open spec fn five_digits(n: nat) -> Seq<char> {
    seq![
        text::digit(n / 10_000 % 10),
        text::digit(n / 1_000 % 10),
        text::digit(n / 100 % 10),
        text::digit(n / 10 % 10),
        text::digit(n % 10),
    ]
}

/// The five bytes of a digest, or as many as are left, that its group number `g` is made of.
pub open spec fn chunk(digest: Seq<u8>, g: nat) -> Seq<u8> {
    digest.subrange(
        (5 * g) as int,
        if 5 * g + 5 <= digest.len() {
            (5 * g + 5) as int
        } else {
            digest.len() as int
        },
    )
}

/// The first `count` groups of a digest, with a space between one and the next.
pub open spec fn groups(digest: Seq<u8>, count: nat) -> Seq<char>
    decreases count,
{
    if count == 0 {
        Seq::empty()
    } else {
        let last = five_digits(little_endian(chunk(digest, (count - 1) as nat)));
        if count == 1 {
            last
        } else {
            groups(digest, (count - 1) as nat).push(' ') + last
        }
    }
}

/// Two keys in the order of their bytes.
pub open spec fn in_order(a: Seq<char>, b: Seq<char>) -> (Seq<char>, Seq<char>) {
    if text::bytes_at_most(encode_utf8(a), encode_utf8(b)) {
        (a, b)
    } else {
        (b, a)
    }
}

/// The text whose digest the safety number of two keys is made of.
pub open spec fn safety_text(a: Seq<char>, b: Seq<char>) -> Seq<char> {
    let (first, second) = in_order(a, b);
    "secure-p2p-chat-safety-v1|"@ + first + "|"@ + second
}

/// The safety number of two keys: the seven groups of a digest.
pub open spec fn number(a: Seq<char>, b: Seq<char>) -> Seq<char> {
    groups(primitives::sha256(encode_utf8(safety_text(a, b))), 7)
}

/// Both sides compute the same safety number.
pub proof fn law_safety_number_is_symmetric(a: Seq<char>, b: Seq<char>)
    ensures
        number(a, b) == number(b, a),
{
    text::lemma_bytes_order(encode_utf8(a), encode_utf8(b));
    encode_utf8_decode_utf8(a);
    encode_utf8_decode_utf8(b);
}

/// The text that is hashed for two keys determines the keys, up to their order: for keys that hold
/// no bar and are as long as public keys are, no two pairs share it, nor do their bytes.
pub proof fn law_hashed_text_binds_both_keys(
    a: Seq<char>,
    b: Seq<char>,
    c: Seq<char>,
    d: Seq<char>,
)
    requires
        a.len() == 44 && b.len() == 44 && c.len() == 44 && d.len() == 44,
        !a.contains('|') && !b.contains('|') && !c.contains('|') && !d.contains('|'),
    ensures
        safety_text(a, b) == safety_text(c, d) <==> (a == c && b == d) || (a == d && b == c),
        encode_utf8(safety_text(a, b)) == encode_utf8(safety_text(c, d)) ==> (a == c && b == d) || (a
            == d && b == c),
{
    law_hashed_text_holds_both_keys(a, b);
    law_hashed_text_holds_both_keys(c, d);
    law_hashed_text_holds_both_keys(b, a);
    let s = safety_text(a, b);
    let t = safety_text(c, d);
    encode_utf8_decode_utf8(s);
    encode_utf8_decode_utf8(t);
    if s == t {
        let (first, second) = (s.subrange(26, 70), s.skip(71));
        assert((a == first && b == second) || (b == first && a == second));
        assert((c == first && d == second) || (d == first && c == second));
    }
    text::lemma_bytes_order(encode_utf8(a), encode_utf8(b));
    encode_utf8_decode_utf8(a);
    encode_utf8_decode_utf8(b);
}

/// The text that is hashed for two keys of the length of public keys is a name, a bar, the one key,
/// a bar, and the other; the one whose bytes come first stands first.
pub proof fn law_hashed_text_holds_both_keys(a: Seq<char>, b: Seq<char>)
    requires
        a.len() == 44,
        b.len() == 44,
    ensures
        ({
            let s = safety_text(a, b);
            let (first, second) = (s.subrange(26, 70), s.skip(71));
            &&& s.len() == 115
            &&& s.take(26) == "secure-p2p-chat-safety-v1|"@
            &&& s[70] == '|'
            &&& (first == a && second == b) || (first == b && second == a)
            &&& text::bytes_at_most(encode_utf8(first), encode_utf8(second))
        }),
{
    reveal_strlit("secure-p2p-chat-safety-v1|");
    reveal_strlit("|");
    let s = safety_text(a, b);
    let (first, second) = in_order(a, b);
    text::lemma_bytes_order(encode_utf8(a), encode_utf8(b));
    assert(s.take(26) =~= "secure-p2p-chat-safety-v1|"@);
    assert(s.subrange(26, 70) =~= first);
    assert(s.skip(71) =~= second);
}

/// Each group of a safety number is, in decimal and with leading zeros, what is left modulo 100000 of
/// the number that five bytes of the digest make, the lowest first; the last group has two bytes.
pub proof fn law_groups_show_the_digest(digest: Seq<u8>)
    requires
        digest.len() == 32,
    ensures
        forall|g: int|
            #![trigger groups(digest, 7).subrange(6 * g, 6 * g + 5)]
            0 <= g < 6 ==> text::value_of(groups(digest, 7).subrange(6 * g, 6 * g + 5)) == (
            digest[5 * g] + 0x100 * digest[5 * g + 1] + 0x1_0000 * digest[5 * g + 2] + 0x100_0000
                * digest[5 * g + 3] + 0x1_0000_0000 * digest[5 * g + 4]) % 100_000,
        text::value_of(groups(digest, 7).subrange(36, 41)) == (digest[30] + 0x100 * digest[31])
            % 100_000,
{
    lemma_groups_shape(digest, 7);
    assert forall|g: int|
        #![trigger groups(digest, 7).subrange(6 * g, 6 * g + 5)]
        0 <= g < 6 implies text::value_of(groups(digest, 7).subrange(6 * g, 6 * g + 5)) == (
    digest[5 * g] + 0x100 * digest[5 * g + 1] + 0x1_0000 * digest[5 * g + 2] + 0x100_0000
        * digest[5 * g + 3] + 0x1_0000_0000 * digest[5 * g + 4]) % 100_000 by {
        lemma_group(digest, g as nat, 7);
        let bytes = chunk(digest, g as nat);
        lemma_five_bytes(bytes);
        law_five_digits_read_back(little_endian(bytes));
    }
    lemma_group(digest, 6, 7);
    let bytes = chunk(digest, 6);
    lemma_two_bytes(bytes);
    law_five_digits_read_back(little_endian(bytes));
}

/// Five digits read back as the number modulo 100000.
pub proof fn law_five_digits_read_back(n: nat)
    ensures
        five_digits(n).len() == 5,
        text::value_of(five_digits(n)) == n % 100_000,
{
    let s = five_digits(n);
    lemma_digits_add_up(n);
    let (t, u) = (s.drop_last(), s.drop_last().drop_last());
    let (v, w) = (u.drop_last(), u.drop_last().drop_last());
    assert(w.drop_last() =~= Seq::empty());
    assert(text::value_of(w.drop_last()) == 0);
    assert(w.last() == s[0] && v.last() == s[1] && u.last() == s[2] && t.last() == s[3]);
    assert(text::value_of(w) == n / 10_000 % 10);
    assert(text::value_of(v) == text::value_of(w) * 10 + n / 1_000 % 10);
    assert(text::value_of(u) == text::value_of(v) * 10 + n / 100 % 10);
    assert(text::value_of(t) == text::value_of(u) * 10 + n / 10 % 10);
    assert(text::value_of(s) == text::value_of(t) * 10 + n % 10);
}

proof fn lemma_digits_add_up(n: nat)
    ensures
        10_000 * (n / 10_000 % 10) + 1_000 * (n / 1_000 % 10) + 100 * (n / 100 % 10) + 10 * (n / 10
            % 10) + n % 10 == n % 100_000,
{
    let (a, b) = (n / 10, n / 100);
    let (c, d, e) = (n / 1_000, n / 10_000, n / 100_000);
    assert(a / 10 == b && b / 10 == c && c / 10 == d && d / 10 == e);
    assert(n == 10 * a + n % 10);
    assert(a == 10 * b + a % 10);
    assert(b == 10 * c + b % 10);
    assert(c == 10 * d + c % 10);
    assert(d == 10 * e + d % 10);
}

proof fn lemma_five_bytes(b: Seq<u8>)
    requires
        b.len() == 5,
    ensures
        little_endian(b) == b[0] + 0x100 * b[1] + 0x1_0000 * b[2] + 0x100_0000 * b[3]
            + 0x1_0000_0000 * b[4],
{
    let r = b.skip(1);
    let q = r.skip(1);
    let p = q.skip(1);
    reveal_with_fuel(little_endian, 6);
    assert(p.skip(1)[0] == b[4]);
    assert(p.skip(1).skip(1) =~= Seq::empty());
    assert(p[0] == b[3] && q[0] == b[2] && r[0] == b[1]);
    assert(little_endian(p.skip(1)) == b[4]);
    assert(little_endian(p) == b[3] + 256 * b[4]);
    assert(little_endian(q) == b[2] + 256 * little_endian(p));
    assert(little_endian(r) == b[1] + 256 * little_endian(q));
}

proof fn lemma_two_bytes(b: Seq<u8>)
    requires
        b.len() == 2,
    ensures
        little_endian(b) == b[0] + 0x100 * b[1],
{
    reveal_with_fuel(little_endian, 3);
    assert(b.skip(1)[0] == b[1]);
    assert(b.skip(1).skip(1) =~= Seq::empty());
}

proof fn lemma_group(digest: Seq<u8>, g: nat, count: nat)
    requires
        g < count,
    ensures
        groups(digest, count).len() == 6 * count - 1,
        groups(digest, count).subrange(6 * g as int, 6 * g as int + 5) == five_digits(
            little_endian(chunk(digest, g)),
        ),
    decreases count,
{
    lemma_groups_shape(digest, count);
    if g + 1 < count {
        lemma_group(digest, g, (count - 1) as nat);
        assert(groups(digest, count).subrange(6 * g as int, 6 * g as int + 5) =~= groups(
            digest,
            (count - 1) as nat,
        ).subrange(6 * g as int, 6 * g as int + 5));
    } else {
        assert(groups(digest, count).subrange(6 * g as int, 6 * g as int + 5) =~= five_digits(
            little_endian(chunk(digest, g)),
        ));
    }
}

/// A safety number is seven groups of five digits, with a space between one and the next.
pub proof fn law_safety_number_shape(a: Seq<char>, b: Seq<char>)
    ensures
        number(a, b).len() == 41,
        forall|i: int|
            0 <= i < 41 ==> if i % 6 == 5 {
                #[trigger] number(a, b)[i] == ' '
            } else {
                '0' <= number(a, b)[i] <= '9'
            },
{
    lemma_groups_shape(primitives::sha256(encode_utf8(safety_text(a, b))), 7);
}

proof fn lemma_groups_shape(digest: Seq<u8>, count: nat)
    requires
        count > 0,
    ensures
        groups(digest, count).len() == 6 * count - 1,
        forall|i: int|
            0 <= i < 6 * count - 1 ==> if i % 6 == 5 {
                #[trigger] groups(digest, count)[i] == ' '
            } else {
                '0' <= groups(digest, count)[i] <= '9'
            },
    decreases count,
{
    if count > 1 {
        lemma_groups_shape(digest, (count - 1) as nat);
    }
}

/// Adds the last five decimal digits of a number to a text.
fn push_five_digits(s: &mut String, n: u64)
    ensures
        final(s)@ == old(s)@ + five_digits(n as nat),
{
    s.push(text::digit_char((n / 10_000 % 10) as u8));
    s.push(text::digit_char((n / 1_000 % 10) as u8));
    s.push(text::digit_char((n / 100 % 10) as u8));
    s.push(text::digit_char((n / 10 % 10) as u8));
    s.push(text::digit_char((n % 10) as u8));
    assert(s@ =~= old(s)@ + five_digits(n as nat));
}

/// A number below `256^5` in bytes, the lowest first.
fn number_of(bytes: &[u8; 32], from: usize, to: usize) -> (n: u64)
    requires
        from <= to <= 32,
        to - from <= 5,
    ensures
        n == little_endian(bytes@.subrange(from as int, to as int)),
        n < vstd::arithmetic::power::pow(256, (to - from) as nat),
    decreases to - from,
{
    reveal_with_fuel(vstd::arithmetic::power::pow, 6);
    if from == to {
        0
    } else {
        let rest = number_of(bytes, from + 1, to);
        assert(bytes@.subrange(from as int, to as int).skip(1) =~= bytes@.subrange(
            from + 1,
            to as int,
        ));
        bytes[from] as u64 + 256 * rest
    }
}

/// A digest as seven groups of five digits.
pub fn digest_groups(digest: &[u8; 32]) -> (r: String)
    ensures
        r@ == groups(digest@, 7),
{
    let mut digits = String::new();
    let mut g: usize = 0;
    while g < 7
        invariant
            g <= 7,
            digits@ == groups(digest@, g as nat),
        decreases 7 - g,
    {
        let from: usize = 5 * g;
        let to: usize = if from + 5 <= 32 {
            from + 5
        } else {
            32
        };
        let n = number_of(digest, from, to);
        if g > 0 {
            digits.push(' ');
        }
        push_five_digits(&mut digits, n);
        g = g + 1;
    }
    digits
}

/// The number that two people read to each other to make sure that their keys are each other's.
pub fn safety_number(local_pk_b64: &str, peer_pk_b64: &str) -> (r: String)
    ensures
        r@ == number(local_pk_b64@, peer_pk_b64@),
{
    let local_first = text::at_most(local_pk_b64.as_bytes(), peer_pk_b64.as_bytes());
    let mut input = "secure-p2p-chat-safety-v1|".to_owned();
    if local_first {
        input.append(local_pk_b64);
        input.append("|");
        input.append(peer_pk_b64);
    } else {
        input.append(peer_pk_b64);
        input.append("|");
        input.append(local_pk_b64);
    }
    let digest = primitives::sha256_digest(input.as_str().as_bytes());
    digest_groups(&digest)
}

/// Whether a peer was verified.
#[derive(Debug, Clone, Copy, PartialEq, Eq, Structural)]
pub enum TrustState {
    Unverified,
    Verified,
}

/// A peer that was verified: its key, and the safety number that was compared.
#[derive(Debug, Clone, PartialEq, Eq)]
pub struct TrustedContact {
    pub public_key_b64: String,
    pub safety_number: String,
}

/// The keys of a sequence of contacts.
spec fn contact_keys(contacts: Seq<TrustedContact>) -> Seq<Seq<char>> {
    contacts.map_values(|c: TrustedContact| c.public_key_b64@)
}

/// The peers that were verified. No key stands in it twice.
#[derive(Clone)]
pub struct ContactBook {
    contacts: Vec<TrustedContact>,
}

impl View for ContactBook {
    type V = Map<Seq<char>, Seq<char>>;

    /// The safety number under which each key was verified.
    closed spec fn view(&self) -> Map<Seq<char>, Seq<char>> {
        Map::new(
            |key: Seq<char>| contact_keys(self.contacts@).contains(key),
            |key: Seq<char>|
                self.contacts@[contact_keys(self.contacts@).index_of(key)].safety_number@,
        )
    }
}

/// Whether a book shows that a local key and a peer's key were verified: the peer's key is in it,
/// under the safety number of the two.
pub open spec fn trusts(book: Map<Seq<char>, Seq<char>>, local: Seq<char>, peer: Seq<char>) -> bool {
    book.contains_key(peer) && book[peer] == number(local, peer)
}

/// The book after a peer's key was verified.
pub open spec fn verified(
    book: Map<Seq<char>, Seq<char>>,
    local: Seq<char>,
    peer: Seq<char>,
) -> Map<Seq<char>, Seq<char>> {
    book.insert(peer, number(local, peer))
}

/// A peer that was verified is trusted, and no other key is trusted for it: trust in the others
/// is what it was. Nobody is trusted in an empty book.
pub proof fn law_verifying_pins_one_key(
    book: Map<Seq<char>, Seq<char>>,
    local: Seq<char>,
    peer: Seq<char>,
)
    ensures
        trusts(verified(book, local, peer), local, peer),
        forall|someone: Seq<char>, other: Seq<char>|
            other != peer ==> trusts(verified(book, local, peer), someone, other) == #[trigger] trusts(
                book,
                someone,
                other,
            ),
        forall|other: Seq<char>| !#[trigger] trusts(Map::empty(), local, other),
        forall|someone: Seq<char>| #[trigger]
            trusts(verified(book, local, peer), someone, peer) <==> number(someone, peer)
                == number(local, peer),
        verified(book, local, peer).dom() == book.dom().insert(peer),
{
}

impl ContactBook {
    /// No key stands in the book twice.
    pub closed spec fn wf(&self) -> bool {
        contact_keys(self.contacts@).no_duplicates()
    }

    /// A contact of the sequence is one of the map.
    proof fn lemma_contact(&self, i: int)
        requires
            self.wf(),
            0 <= i < self.contacts@.len(),
        ensures
            self@.contains_key(self.contacts@[i].public_key_b64@),
            self@[self.contacts@[i].public_key_b64@] == self.contacts@[i].safety_number@,
    {
        let keys = contact_keys(self.contacts@);
        assert(keys[i] == self.contacts@[i].public_key_b64@);
        assert(keys.contains(keys[i]));
        assert(keys.index_of(keys[i]) == i);
    }

    /// A contact of the map is one of the sequence.
    proof fn lemma_index(&self, key: Seq<char>) -> (i: int)
        requires
            self.wf(),
            self@.contains_key(key),
        ensures
            0 <= i < self.contacts@.len(),
            self.contacts@[i].public_key_b64@ == key,
            self@[key] == self.contacts@[i].safety_number@,
    {
        let i = contact_keys(self.contacts@).index_of(key);
        assert(contact_keys(self.contacts@)[i] == key);
        self.lemma_contact(i);
        i
    }

    /// The book with nobody in it.
    pub fn new() -> (r: ContactBook)
        ensures
            r.wf(),
            r@ == Map::<Seq<char>, Seq<char>>::empty(),
    {
        let r = ContactBook { contacts: Vec::new() };
        assert(r@ =~= Map::<Seq<char>, Seq<char>>::empty());
        r
    }

    /// Where a key stands.
    fn find(&self, peer_pk_b64: &str) -> (r: Option<usize>)
        requires
            self.wf(),
        ensures
            match r {
                Some(i) => i < self.contacts@.len() && self.contacts@[i as int].public_key_b64@
                    == peer_pk_b64@,
                None => !self@.contains_key(peer_pk_b64@),
            },
    {
        let mut i: usize = 0;
        while i < self.contacts.len()
            invariant
                i <= self.contacts@.len(),
                forall|j: int|
                    0 <= j < i ==> (#[trigger] self.contacts@[j]).public_key_b64@ != peer_pk_b64@,
            decreases self.contacts@.len() - i,
        {
            if text::same_text(self.contacts[i].public_key_b64.as_str(), peer_pk_b64) {
                return Some(i);
            }
            i = i + 1;
        }
        proof {
            if self@.contains_key(peer_pk_b64@) {
                let j = self.lemma_index(peer_pk_b64@);
            }
        }
        None
    }

    /// Whether a peer was verified under the local key.
    pub fn trust_state(&self, local_pk_b64: &str, peer_pk_b64: &str) -> (r: TrustState)
        requires
            self.wf(),
        ensures
            r == if trusts(self@, local_pk_b64@, peer_pk_b64@) {
                TrustState::Verified
            } else {
                TrustState::Unverified
            },
    {
        match self.get(peer_pk_b64) {
            Some(contact) => {
                let expected = safety_number(local_pk_b64, peer_pk_b64);
                if contact.safety_number == expected {
                    TrustState::Verified
                } else {
                    TrustState::Unverified
                }
            },
            None => TrustState::Unverified,
        }
    }

    /// Enters a peer as verified under the local key.
    pub fn verify(&mut self, local_pk_b64: &str, peer_pk_b64: &str) -> (r: TrustedContact)
        requires
            old(self).wf(),
        ensures
            final(self).wf(),
            final(self)@ == verified(old(self)@, local_pk_b64@, peer_pk_b64@),
            r.public_key_b64@ == peer_pk_b64@,
            r.safety_number@ == number(local_pk_b64@, peer_pk_b64@),
    {
        let ghost before = *self;
        let ghost key = peer_pk_b64@;
        let safety = safety_number(local_pk_b64, peer_pk_b64);
        let contact = TrustedContact {
            public_key_b64: peer_pk_b64.to_owned(),
            safety_number: safety.clone(),
        };
        match self.find(peer_pk_b64) {
            Some(i) => {
                self.contacts.set(i, contact);
                proof {
                    assert(contact_keys(self.contacts@) =~= contact_keys(before.contacts@));
                    before.lemma_contact(i as int);
                    self.lemma_contact(i as int);
                    assert forall|k: Seq<char>| #[trigger] self@.contains_key(k) implies self@[k]
                        == before@.insert(key, safety@)[k] by {
                        let j = self.lemma_index(k);
                        if k != key {
                            before.lemma_contact(j);
                        }
                    }
                    assert(self@ =~= before@.insert(key, safety@));
                }
            },
            None => {
                self.contacts.push(contact);
                proof {
                    let ks = contact_keys(before.contacts@);
                    assert(contact_keys(self.contacts@) =~= ks.push(key));
                    assert forall|j: int| 0 <= j < ks.len() implies ks[j] != key by {
                        before.lemma_contact(j);
                    }
                    let last = self.contacts@.len() - 1;
                    self.lemma_contact(last);
                    assert forall|k: Seq<char>|
                        self@.contains_key(k) == before@.insert(key, safety@).contains_key(k) by {
                        if self@.contains_key(k) {
                            let j = self.lemma_index(k);
                            if j < last {
                                before.lemma_contact(j);
                            }
                        }
                        if before@.contains_key(k) {
                            let j = before.lemma_index(k);
                            self.lemma_contact(j);
                        }
                    }
                    assert forall|k: Seq<char>| #[trigger] self@.contains_key(k) implies self@[k]
                        == before@.insert(key, safety@)[k] by {
                        let j = self.lemma_index(k);
                        if j < last {
                            before.lemma_contact(j);
                        }
                    }
                    assert(self@ =~= before@.insert(key, safety@));
                }
            },
        }
        TrustedContact { public_key_b64: peer_pk_b64.to_owned(), safety_number: safety }
    }

    /// The contact with a key.
    pub fn get(&self, peer_pk_b64: &str) -> (r: Option<&TrustedContact>)
        requires
            self.wf(),
        ensures
            match r {
                Some(contact) => self@.contains_key(peer_pk_b64@) && contact.public_key_b64@
                    == peer_pk_b64@ && contact.safety_number@ == self@[peer_pk_b64@],
                None => !self@.contains_key(peer_pk_b64@),
            },
    {
        match self.find(peer_pk_b64) {
            Some(i) => {
                proof {
                    self.lemma_contact(i as int);
                }
                Some(&self.contacts[i])
            },
            None => None,
        }
    }
}

impl Default for ContactBook {
    fn default() -> (r: ContactBook)
        ensures
            r.wf(),
            r@ == Map::<Seq<char>, Seq<char>>::empty(),
    {
        ContactBook::new()
    }
}

} // verus!
