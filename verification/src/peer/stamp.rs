//! What marks a message: an identifier, and the time.
use crate::peer::types::ChatMessage;
use crate::text;
use vstd::prelude::*;
use vstd::utf8::*;

verus! {

/// A point in time: seconds since the start of 1970, UTC, and nanoseconds beyond them.
#[derive(Debug, Clone, Copy, PartialEq, Eq, Structural)]
pub struct Timestamp {
    pub secs: i64,
    pub nanos: u32,
}

/// What every identifier and every time that is drawn for a message look like.
pub open spec fn stamped(id: Seq<char>, at: Timestamp) -> bool {
    &&& id.len() == 36
    &&& is_ascii_chars(id)
    &&& at.secs >= 0
    &&& at.nanos < 1_000_000_000
}

/// A number as an identifier: 36 digits, of which the last ones are the number in decimal.
pub open spec fn numbered(n: nat, width: nat) -> Seq<char>
    decreases width,
{
    if width == 0 {
        Seq::empty()
    } else {
        numbered(n / 10, (width - 1) as nat).push(text::digit(n % 10))
    }
}

/// Two numbers that are not too long for it never make the same identifier.
pub proof fn lemma_numbered_apart(m: nat, n: nat, width: nat)
    requires
        numbered(m, width) == numbered(n, width),
        m < vstd::arithmetic::power::pow(10, width),
        n < vstd::arithmetic::power::pow(10, width),
    ensures
        m == n,
    decreases width,
{
    reveal(vstd::arithmetic::power::pow);
    if width > 0 {
        let w = (width - 1) as nat;
        let (a, b) = (numbered(m, width), numbered(n, width));
        assert(a.drop_last() =~= numbered(m / 10, w));
        assert(b.drop_last() =~= numbered(n / 10, w));
        assert(a.last() == text::digit(m % 10));
        assert(b.last() == text::digit(n % 10));
        assert(vstd::arithmetic::power::pow(10, width) == 10 * vstd::arithmetic::power::pow(10, w));
        lemma_numbered_apart(m / 10, n / 10, w);
    }
}

proof fn lemma_numbered_shape(n: nat, width: nat)
    ensures
        numbered(n, width).len() == width,
        is_ascii_chars(numbered(n, width)),
    decreases width,
{
    if width > 0 {
        lemma_numbered_shape(n / 10, (width - 1) as nat);
    }
}

/// The identifier that a number makes.
fn push_numbered(s: &mut String, n: u64, width: u8)
    ensures
        final(s)@ == old(s)@ + numbered(n as nat, width as nat),
    decreases width,
{
    if width == 0 {
        assert(s@ =~= old(s)@ + numbered(n as nat, 0));
    } else {
        push_numbered(s, n / 10, width - 1);
        s.push(text::digit_char((n % 10) as u8));
        assert(s@ =~= old(s)@ + numbered(n as nat, width as nat));
    }
}

/// An identifier that is none of those given: one drawn at random, or, where that is one of them, a
/// number that is not.
pub(crate) fn id_unlike(taken: &Vec<ChatMessage>) -> (id: String)
    ensures
        id@.len() == 36,
        is_ascii_chars(id@),
        forall|i: int| 0 <= i < taken@.len() ==> (#[trigger] taken@[i]).id@ != id@,
{
    let id = fresh_id();
    if find_id(taken, &id).is_none() {
        return id;
    }
    let ghost mut places: Seq<int> = Seq::empty();
    let mut n: usize = 0;
    while n <= taken.len()
        invariant
            places.len() == n,
            n <= taken@.len(),
            forall|k: int| 0 <= k < n ==> 0 <= #[trigger] places[k] < taken@.len(),
            forall|k: int|
                0 <= k < n ==> taken@[#[trigger] places[k]].id@ == numbered(k as nat, 36),
        decreases taken@.len() + 1 - n,
    {
        let mut s = String::new();
        push_numbered(&mut s, n as u64, 36);
        proof {
            lemma_numbered_shape(n as nat, 36);
            assert(s@ =~= numbered(n as nat, 36));
        }
        match find_id(taken, &s) {
            None => return s,
            Some(i) => {
                proof {
                    places = places.push(i as int);
                }
            },
        }
        proof {
            lemma_numbers_found(places, taken@);
        }
        n = n + 1;
    }
    id
}

/// No more numbers can be found among identifiers than there are identifiers.
proof fn lemma_numbers_found(places: Seq<int>, taken: Seq<ChatMessage>)
    requires
        places.len() <= taken.len() + 1,
        taken.len() <= usize::MAX,
        forall|k: int| 0 <= k < places.len() ==> 0 <= #[trigger] places[k] < taken.len(),
        forall|k: int|
            0 <= k < places.len() ==> taken[#[trigger] places[k]].id@ == numbered(k as nat, 36),
    ensures
        places.len() <= taken.len(),
{
    assert(vstd::arithmetic::power::pow(10, 36) > 0x1_0000_0000_0000_0000) by {
        reveal_with_fuel(vstd::arithmetic::power::pow, 37);
    }
    assert(places.no_duplicates()) by {
        assert forall|i: int, j: int|
            0 <= i < places.len() && 0 <= j < places.len() && i != j implies places[i]
            != places[j] by {
            if places[i] == places[j] {
                lemma_numbered_apart(i as nat, j as nat, 36);
            }
        }
    }
    places.unique_seq_to_set();
    let range = vstd::set_lib::set_int_range(0, taken.len() as int);
    vstd::set_lib::lemma_int_range(0, taken.len() as int);
    assert(places.to_set().subset_of(range));
    vstd::set_lib::lemma_len_subset(places.to_set(), range);
}

/// Where an identifier stands.
fn find_id(taken: &Vec<ChatMessage>, id: &String) -> (r: Option<usize>)
    ensures
        match r {
            Some(i) => i < taken@.len() && taken@[i as int].id@ == id@,
            None => forall|i: int| 0 <= i < taken@.len() ==> (#[trigger] taken@[i]).id@ != id@,
        },
{
    let mut i: usize = 0;
    while i < taken.len()
        invariant
            i <= taken@.len(),
            forall|j: int| 0 <= j < i ==> (#[trigger] taken@[j]).id@ != id@,
        decreases taken@.len() - i,
    {
        if text::same_text(taken[i].id.as_str(), id.as_str()) {
            return Some(i);
        }
        i = i + 1;
    }
    None
}

/// `uuid::Uuid::new_v4` and its text: an identifier drawn at random, 36 characters of ASCII.
/// Which one it is, is left open. Where the operating system has no random bytes to give, the call
/// panics.
#[verifier::external_body]
pub(crate) fn fresh_id() -> (id: String)
    ensures
        id@.len() == 36,
        is_ascii_chars(id@),
{
    uuid::Uuid::new_v4().to_string()
}

/// `chrono::Utc::now`, as `timestamp` and `timestamp_subsec_nanos` give it: a time that is not
/// before 1970, with less than a second in nanoseconds. Which one it is, is left open. Where the
/// clock of the machine stands before 1970, the call panics.
#[verifier::external_body]
pub(crate) fn utc_now() -> (at: Timestamp)
    ensures
        at.secs >= 0,
        at.nanos < 1_000_000_000,
{
    let now = chrono::Utc::now();
    Timestamp { secs: now.timestamp(), nanos: now.timestamp_subsec_nanos() }
}

} // verus!
