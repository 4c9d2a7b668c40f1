//! Text handling: what a number looks like in decimal, trimming, prefixes, and the order of texts
//! by their UTF-8 bytes.
use vstd::prelude::*;
use vstd::string::*;
use vstd::utf8::*;

verus! {

/// `String::push` appends one character to the end of the string.
pub assume_specification[ String::push ](s: &mut String, c: char)
    ensures
        final(s)@ == old(s)@.push(c),
;

/// The error of reading bytes as UTF-8.
#[verifier::external_type_specification]
#[verifier::external_body]
pub struct ExFromUtf8Error(std::string::FromUtf8Error);

/// `String::from_utf8` gives the text whose UTF-8 encoding the bytes are, or an error where they
/// are not valid UTF-8.
pub assume_specification[ String::from_utf8 ](bytes: Vec<u8>) -> (r: Result<
    String,
    std::string::FromUtf8Error,
>)
    ensures
        match r {
            Ok(s) => encode_utf8(s@) == bytes@,
            Err(_) => !valid_utf8(bytes@),
        },
;

/// The text that bytes stand for in UTF-8, if they are valid.
pub open spec fn text_of(bytes: Seq<u8>) -> Option<Seq<char>> {
    if valid_utf8(bytes) {
        Some(decode_utf8(bytes))
    } else {
        None
    }
}

/// Reads bytes as UTF-8.
pub fn read_text(bytes: Vec<u8>) -> (r: Option<String>)
    ensures
        match r {
            Some(s) => text_of(bytes@) == Some(s@) && encode_utf8(s@) == bytes@,
            None => text_of(bytes@) is None,
        },
{
    match String::from_utf8(bytes) {
        Ok(s) => {
            proof {
                encode_utf8_valid_utf8(s@);
                encode_utf8_decode_utf8(s@);
            }
            Some(s)
        },
        Err(_) => None,
    }
}

/// The character for a digit, `0` for anything that is not one.
pub open spec fn digit(d: nat) -> char {
    if d == 1 {
        '1'
    } else if d == 2 {
        '2'
    } else if d == 3 {
        '3'
    } else if d == 4 {
        '4'
    } else if d == 5 {
        '5'
    } else if d == 6 {
        '6'
    } else if d == 7 {
        '7'
    } else if d == 8 {
        '8'
    } else if d == 9 {
        '9'
    } else {
        '0'
    }
}

/// A number in decimal, without leading zeros.
pub open spec fn decimal(n: nat) -> Seq<char>
    decreases n,
{
    if n < 10 {
        seq![digit(n)]
    } else {
        decimal(n / 10).push(digit(n % 10))
    }
}

/// Whether a character has Unicode's White_Space property.
pub open spec fn white_space(c: char) -> bool {
    let u = c as u32;
    ||| 0x09 <= u <= 0x0d
    ||| u == 0x20
    ||| u == 0x85
    ||| u == 0xa0
    ||| u == 0x1680
    ||| 0x2000 <= u <= 0x200a
    ||| u == 0x2028
    ||| u == 0x2029
    ||| u == 0x202f
    ||| u == 0x205f
    ||| u == 0x3000
}

/// A text without the white space it begins with.
pub open spec fn trimmed_start(s: Seq<char>) -> Seq<char>
    decreases s.len(),
{
    if s.len() > 0 && white_space(s[0]) {
        trimmed_start(s.skip(1))
    } else {
        s
    }
}

/// A text without the white space it ends in.
pub open spec fn trimmed_end(s: Seq<char>) -> Seq<char>
    decreases s.len(),
{
    if s.len() > 0 && white_space(s.last()) {
        trimmed_end(s.drop_last())
    } else {
        s
    }
}

/// A text without the white space around it.
pub open spec fn trimmed(s: Seq<char>) -> Seq<char> {
    trimmed_end(trimmed_start(s))
}

/// A text without the run of `c` it ends in.
pub open spec fn without_trailing(s: Seq<char>, c: char) -> Seq<char>
    decreases s.len(),
{
    if s.len() > 0 && s.last() == c {
        without_trailing(s.drop_last(), c)
    } else {
        s
    }
}

/// A text without the copies of `prefix` it begins with.
pub open spec fn without_leading(s: Seq<char>, prefix: Seq<char>) -> Seq<char>
    decreases s.len(),
{
    if prefix.len() > 0 && prefix.is_prefix_of(s) {
        without_leading(s.skip(prefix.len() as int), prefix)
    } else {
        s
    }
}

/// The last place at which `c` stands in a text, or -1.
pub open spec fn last_place(s: Seq<char>, c: char) -> int
    decreases s.len(),
{
    if s.len() == 0 {
        -1
    } else if s.last() == c {
        s.len() - 1
    } else {
        last_place(s.drop_last(), c)
    }
}

/// Whether a text is made of the ASCII digits alone.
pub open spec fn all_digits(s: Seq<char>) -> bool {
    forall|i: int| 0 <= i < s.len() ==> '0' <= #[trigger] s[i] <= '9'
}

/// Whether one sequence of bytes comes before another or equals it, byte by byte.
pub open spec fn bytes_at_most(a: Seq<u8>, b: Seq<u8>) -> bool
    decreases a.len(),
{
    if a.len() == 0 {
        true
    } else if b.len() == 0 {
        false
    } else if a[0] != b[0] {
        a[0] < b[0]
    } else {
        bytes_at_most(a.skip(1), b.skip(1))
    }
}

/// Of two sequences of bytes each is at most the other only if they are equal, and one always is.
pub proof fn lemma_bytes_order(a: Seq<u8>, b: Seq<u8>)
    ensures
        bytes_at_most(a, b) || bytes_at_most(b, a),
        bytes_at_most(a, b) && bytes_at_most(b, a) ==> a == b,
    decreases a.len(),
{
    if a.len() > 0 && b.len() > 0 && a[0] == b[0] {
        lemma_bytes_order(a.skip(1), b.skip(1));
        if bytes_at_most(a, b) && bytes_at_most(b, a) {
            assert(a =~= seq![a[0]] + a.skip(1));
            assert(b =~= seq![b[0]] + b.skip(1));
        }
    } else if a.len() == 0 && b.len() == 0 {
        assert(a =~= b);
    }
}

/// The bytes of two texts, one behind the other, are the bytes of the text they make.
pub proof fn lemma_utf8_joins(a: Seq<char>, b: Seq<char>)
    ensures
        encode_utf8(a + b) == encode_utf8(a) + encode_utf8(b),
    decreases a.len(),
{
    if a.len() == 0 {
        assert(a + b =~= b);
        assert(encode_utf8(a) + encode_utf8(b) =~= encode_utf8(b));
    } else {
        assert((a + b).drop_first() =~= a.drop_first() + b);
        lemma_utf8_joins(a.drop_first(), b);
        assert(encode_utf8(a + b) =~= encode_utf8(a) + encode_utf8(b));
    }
}

/// The characters of a text.
pub fn chars_of(s: &str) -> (chars: Vec<char>)
    ensures
        chars@ == s@,
{
    let mut chars: Vec<char> = Vec::new();
    for c in it: s.chars()
        invariant
            it.seq() == s@,
            chars@ == s@.take(it.index() as int),
    {
        chars.push(c);
        assert(chars@ =~= s@.take(it.index() + 1));
    }
    assert(s@.take(s@.len() as int) =~= s@);
    chars
}

/// Whether two texts are the same.
pub fn same_text(a: &str, b: &str) -> (same: bool)
    ensures
        same == (a@ == b@),
{
    a.to_owned() == b.to_owned()
}

/// Whether two sequences of bytes are the same.
pub fn same_bytes(a: &[u8], b: &[u8]) -> (same: bool)
    ensures
        same == (a@ == b@),
{
    if a.len() != b.len() {
        return false;
    }
    let mut i: usize = 0;
    while i < a.len()
        invariant
            i <= a.len() == b.len(),
            forall|j: int| 0 <= j < i ==> a@[j] == b@[j],
        decreases a.len() - i,
    {
        if a[i] != b[i] {
            return false;
        }
        i = i + 1;
    }
    assert(a@ =~= b@);
    true
}

/// Whether the bytes of `a` come before those of `b` or equal them.
pub fn at_most(a: &[u8], b: &[u8]) -> (r: bool)
    ensures
        r == bytes_at_most(a@, b@),
{
    let mut i: usize = 0;
    assert(a@.skip(0) =~= a@ && b@.skip(0) =~= b@);
    while i < a.len() && i < b.len() && a[i] == b[i]
        invariant
            i <= a.len(),
            i <= b.len(),
            bytes_at_most(a@, b@) == bytes_at_most(a@.skip(i as int), b@.skip(i as int)),
        decreases a.len() - i,
    {
        assert(a@.skip(i as int).skip(1) =~= a@.skip(i + 1));
        assert(b@.skip(i as int).skip(1) =~= b@.skip(i + 1));
        i = i + 1;
    }
    if i == a.len() {
        true
    } else if i == b.len() {
        false
    } else {
        a[i] < b[i]
    }
}

/// The character for a digit.
pub fn digit_char(d: u8) -> (c: char)
    requires
        d < 10,
    ensures
        c == digit(d as nat),
{
    if d == 0 {
        '0'
    } else if d == 1 {
        '1'
    } else if d == 2 {
        '2'
    } else if d == 3 {
        '3'
    } else if d == 4 {
        '4'
    } else if d == 5 {
        '5'
    } else if d == 6 {
        '6'
    } else if d == 7 {
        '7'
    } else if d == 8 {
        '8'
    } else {
        '9'
    }
}

/// Appends a number in decimal.
pub fn push_decimal(s: &mut String, n: u32)
    ensures
        final(s)@ == old(s)@ + decimal(n as nat),
    decreases n,
{
    if n < 10 {
        s.push(digit_char(n as u8));
    } else {
        push_decimal(s, n / 10);
        s.push(digit_char((n % 10) as u8));
    }
}

/// A number below 2^32 has at most ten decimal digits, all of them digits.
pub proof fn lemma_decimal_len(n: nat, width: nat)
    requires
        width > 0,
        n < vstd::arithmetic::power::pow(10, width),
    ensures
        1 <= decimal(n).len() <= width,
        all_digits(decimal(n)),
    decreases width,
{
    reveal(vstd::arithmetic::power::pow);
    if n >= 10 {
        assert(vstd::arithmetic::power::pow(10, width) == 10 * vstd::arithmetic::power::pow(
            10,
            (width - 1) as nat,
        ));
        if width == 1 {
            assert(vstd::arithmetic::power::pow(10, 0) == 1);
        }
        lemma_decimal_len(n / 10, (width - 1) as nat);
    }
}

/// Two numbers never look the same in decimal.
pub proof fn lemma_decimal_injective(m: nat, n: nat)
    requires
        decimal(m) == decimal(n),
    ensures
        m == n,
    decreases m,
{
    lemma_decimal_ends_in_digit(m / 10);
    lemma_decimal_ends_in_digit(n / 10);
    assert(decimal(m).last() == digit(m % 10));
    assert(decimal(n).last() == digit(n % 10));
    if m >= 10 && n >= 10 {
        assert(decimal(m).drop_last() =~= decimal(m / 10));
        assert(decimal(n).drop_last() =~= decimal(n / 10));
        lemma_decimal_injective(m / 10, n / 10);
    }
}

/// A text falls in one way into what stands before its last `c` and what stands behind it.
pub proof fn lemma_split_at_last(a: Seq<char>, x: Seq<char>, b: Seq<char>, y: Seq<char>, c: char)
    requires
        a.push(c) + x == b.push(c) + y,
        !x.contains(c),
        !y.contains(c),
    ensures
        a == b,
        x == y,
{
    let s = a.push(c) + x;
    let t = b.push(c) + y;
    assert(s.len() == a.len() + 1 + x.len());
    assert(t.len() == b.len() + 1 + y.len());
    assert(s == t);
    if a.len() < b.len() {
        assert(s[b.len() as int] == x[b.len() - a.len() - 1]);
        assert(t[b.len() as int] == c);
    } else if b.len() < a.len() {
        assert(t[a.len() as int] == y[a.len() - b.len() - 1]);
        assert(s[a.len() as int] == c);
    } else {
        assert(a =~= s.take(a.len() as int));
        assert(b =~= t.take(a.len() as int));
        assert(x =~= s.skip(a.len() as int + 1));
        assert(y =~= t.skip(a.len() as int + 1));
    }
}

/// A number in decimal ends in a digit.
pub proof fn lemma_decimal_ends_in_digit(n: nat)
    ensures
        decimal(n).len() > 0,
        '0' <= decimal(n).last() <= '9',
{
}

/// A text that begins and ends without white space is left alone by trimming.
pub proof fn lemma_trimmed_same(s: Seq<char>)
    requires
        s.len() > 0 ==> !white_space(s[0]) && !white_space(s.last()),
    ensures
        trimmed(s) == s,
{
}

/// Whether a character is white space.
pub fn is_white_space(c: char) -> (r: bool)
    ensures
        r == white_space(c),
{
    let u = c as u32;
    (0x09 <= u && u <= 0x0d) || u == 0x20 || u == 0x85 || u == 0xa0 || u == 0x1680 || (0x2000 <= u
        && u <= 0x200a) || u == 0x2028 || u == 0x2029 || u == 0x202f || u == 0x205f || u == 0x3000
}

/// The text without the white space around it.
pub fn trim(s: &str) -> (r: String)
    ensures
        r@ == trimmed(s@),
{
    let chars = chars_of(s);
    let mut from: usize = 0;
    assert(s@.skip(0) =~= s@);
    while from < chars.len() && is_white_space(chars[from])
        invariant
            chars@ == s@,
            from <= chars.len(),
            trimmed_start(s@) == trimmed_start(s@.skip(from as int)),
        decreases chars.len() - from,
    {
        assert(s@.skip(from as int).skip(1) =~= s@.skip(from + 1));
        from = from + 1;
    }
    let ghost rest = s@.skip(from as int);
    let mut to: usize = chars.len();
    assert(s@.subrange(from as int, to as int) =~= rest);
    while to > from && is_white_space(chars[to - 1])
        invariant
            chars@ == s@,
            from <= to <= chars.len(),
            trimmed_end(rest) == trimmed_end(s@.subrange(from as int, to as int)),
        decreases to,
    {
        assert(s@.subrange(from as int, to as int).drop_last() =~= s@.subrange(
            from as int,
            to - 1,
        ));
        to = to - 1;
    }
    s.substring_char(from, to).to_owned()
}

/// The text without the run of `c` it ends in.
pub fn trim_end_of(s: &str, c: char) -> (r: String)
    ensures
        r@ == without_trailing(s@, c),
{
    let chars = chars_of(s);
    let mut to: usize = chars.len();
    assert(s@.subrange(0, to as int) =~= s@);
    while to > 0 && chars[to - 1] == c
        invariant
            chars@ == s@,
            to <= chars.len(),
            without_trailing(s@, c) == without_trailing(s@.subrange(0, to as int), c),
        decreases to,
    {
        assert(s@.subrange(0, to as int).drop_last() =~= s@.subrange(0, to - 1));
        to = to - 1;
    }
    s.substring_char(0, to).to_owned()
}

/// Whether `chars` holds `prefix` from `from` on.
fn has_prefix_at(chars: &Vec<char>, from: usize, prefix: &Vec<char>) -> (r: bool)
    requires
        from <= chars.len(),
    ensures
        r == prefix@.is_prefix_of(chars@.skip(from as int)),
{
    if chars.len() - from < prefix.len() {
        return false;
    }
    let mut i: usize = 0;
    while i < prefix.len()
        invariant
            i <= prefix.len() <= chars.len() - from,
            from <= chars.len(),
            forall|j: int| 0 <= j < i ==> prefix@[j] == chars@[from + j],
        decreases prefix.len() - i,
    {
        if prefix[i] != chars[from + i] {
            assert(chars@.skip(from as int).take(prefix@.len() as int)[i as int] == chars@[from
                + i]);
            return false;
        }
        i = i + 1;
    }
    assert(prefix@ =~= chars@.skip(from as int).take(prefix@.len() as int));
    true
}

/// Whether a text begins with `prefix`.
pub fn starts_with(s: &str, prefix: &str) -> (r: bool)
    ensures
        r == prefix@.is_prefix_of(s@),
{
    assert(s@.skip(0) =~= s@);
    has_prefix_at(&chars_of(s), 0, &chars_of(prefix))
}

/// The text without the copies of `prefix` it begins with.
pub fn trim_start_of(s: &str, prefix: &str) -> (r: String)
    ensures
        r@ == without_leading(s@, prefix@),
{
    let chars = chars_of(s);
    let p = chars_of(prefix);
    let mut from: usize = 0;
    assert(s@.skip(0) =~= s@);
    while p.len() > 0 && has_prefix_at(&chars, from, &p)
        invariant
            chars@ == s@,
            p@ == prefix@,
            from <= chars.len(),
            without_leading(s@, prefix@) == without_leading(s@.skip(from as int), prefix@),
        decreases chars.len() - from,
    {
        assert(s@.skip(from as int).skip(p@.len() as int) =~= s@.skip(from + p.len()));
        from = from + p.len();
    }
    assert(s@.subrange(from as int, s@.len() as int) =~= s@.skip(from as int));
    s.substring_char(from, chars.len()).to_owned()
}

/// The last place of `c` in a text.
pub fn find_last(s: &str, c: char) -> (r: Option<usize>)
    ensures
        match r {
            Some(i) => last_place(s@, c) == i && i < s@.len() && s@[i as int] == c,
            None => last_place(s@, c) == -1,
        },
{
    let chars = chars_of(s);
    let mut to: usize = chars.len();
    assert(s@.take(to as int) =~= s@);
    while to > 0
        invariant
            chars@ == s@,
            to <= chars.len(),
            last_place(s@, c) == last_place(s@.take(to as int), c),
        decreases to,
    {
        assert(s@.take(to as int).drop_last() =~= s@.take(to - 1));
        if chars[to - 1] == c {
            return Some(to - 1);
        }
        to = to - 1;
    }
    None
}

/// Whether what follows the first `from` characters of a text is digits alone.
pub fn digits_from(s: &str, from: usize) -> (r: bool)
    requires
        from <= s@.len(),
    ensures
        r == all_digits(s@.skip(from as int)),
{
    let chars = chars_of(s);
    let mut i: usize = from;
    while i < chars.len()
        invariant
            chars@ == s@,
            from <= i <= chars.len(),
            forall|j: int| 0 <= j < i - from ==> '0' <= #[trigger] s@.skip(from as int)[j] <= '9',
        decreases chars.len() - i,
    {
        let c = chars[i];
        assert(s@.skip(from as int)[i - from] == c);
        if !('0' <= c && c <= '9') {
            return false;
        }
        i = i + 1;
    }
    true
}

/// The texts of a list.
pub open spec fn texts(list: Seq<String>) -> Seq<Seq<char>> {
    list.map_values(|s: String| s@)
}

/// A copy of a list of texts.
pub fn copy_texts(list: &Vec<String>) -> (r: Vec<String>)
    ensures
        texts(r@) == texts(list@),
{
    let mut r: Vec<String> = Vec::new();
    let mut i: usize = 0;
    while i < list.len()
        invariant
            i <= list@.len(),
            texts(r@) == texts(list@).take(i as int),
        decreases list@.len() - i,
    {
        let ghost before = texts(r@);
        r.push(list[i].clone());
        assert(texts(r@) =~= before.push(list@[i as int]@));
        assert(before.push(list@[i as int]@) =~= texts(list@).take(i + 1));
        i = i + 1;
    }
    assert(texts(list@).take(i as int) =~= texts(list@));
    r
}

/// Whether a list holds a text.
pub fn holds_text(list: &Vec<String>, s: &str) -> (r: bool)
    ensures
        r == texts(list@).contains(s@),
{
    let mut i: usize = 0;
    while i < list.len()
        invariant
            i <= list@.len(),
            forall|j: int| 0 <= j < i ==> #[trigger] texts(list@)[j] != s@,
        decreases list@.len() - i,
    {
        assert(texts(list@)[i as int] == list@[i as int]@);
        if same_text(list[i].as_str(), s) {
            assert(texts(list@).contains(texts(list@)[i as int]));
            return true;
        }
        i = i + 1;
    }
    false
}

/// A list with a text at its end, unless it holds the text already.
pub open spec fn with_new(list: Seq<Seq<char>>, s: Seq<char>) -> Seq<Seq<char>> {
    if list.contains(s) {
        list
    } else {
        list.push(s)
    }
}

/// Adds a text to the end of a list, unless the list holds it already.
pub fn push_new(list: &mut Vec<String>, s: String)
    ensures
        texts(final(list)@) == with_new(texts(old(list)@), s@),
{
    let mut i: usize = 0;
    while i < list.len()
        invariant
            i <= list@.len(),
            list@ == old(list)@,
            forall|j: int| 0 <= j < i ==> #[trigger] texts(list@)[j] != s@,
        decreases list@.len() - i,
    {
        assert(texts(list@)[i as int] == list@[i as int]@);
        if list[i] == s {
            return ;
        }
        i = i + 1;
    }
    list.push(s);
    assert(texts(list@) =~= texts(old(list)@).push(s@));
}

/// The number that digits stand for in decimal.
pub open spec fn value_of(digits: Seq<char>) -> nat
    decreases digits.len(),
{
    if digits.len() == 0 {
        0
    } else {
        value_of(digits.drop_last()) * 10 + (digits.last() as u32 - '0' as u32) as nat
    }
}

/// A number in decimal is made of digits, does not begin with a zero unless it is zero, and reads
/// back as the number.
pub proof fn law_decimal_reads_back(n: nat)
    ensures
        decimal(n).len() > 0,
        forall|i: int| 0 <= i < decimal(n).len() ==> '0' <= #[trigger] decimal(n)[i] <= '9',
        decimal(n)[0] == '0' ==> n == 0,
        n < 10 <==> decimal(n).len() == 1,
        value_of(decimal(n)) == n,
    decreases n,
{
    reveal_with_fuel(value_of, 2);
    if n >= 10 {
        law_decimal_reads_back(n / 10);
        assert(decimal(n).drop_last() =~= decimal(n / 10));
        assert(decimal(n)[0] == decimal(n / 10)[0]);
    } else {
        assert(decimal(n).drop_last() =~= Seq::empty());
    }
}

/// The characters that count as white space: the 25 that Unicode gives the property, and no other.
pub proof fn law_white_space(c: char)
    ensures
        white_space(c) <==> (c == '\t' || c == '\n' || c == '\u{b}' || c == '\u{c}' || c == '\r' || c
            == ' ' || c == '\u{85}' || c == '\u{a0}' || c == '\u{1680}' || c == '\u{2000}' || c
            == '\u{2001}' || c == '\u{2002}' || c == '\u{2003}' || c == '\u{2004}' || c == '\u{2005}'
            || c == '\u{2006}' || c == '\u{2007}' || c == '\u{2008}' || c == '\u{2009}' || c
            == '\u{200a}' || c == '\u{2028}' || c == '\u{2029}' || c == '\u{202f}' || c == '\u{205f}'
            || c == '\u{3000}'),
{
}

proof fn lemma_trimmed_start(s: Seq<char>) -> (k: int)
    ensures
        0 <= k <= s.len(),
        trimmed_start(s) == s.skip(k),
        forall|i: int| 0 <= i < k ==> white_space(#[trigger] s[i]),
        k < s.len() ==> !white_space(s[k]),
    decreases s.len(),
{
    if s.len() > 0 && white_space(s[0]) {
        let k = lemma_trimmed_start(s.skip(1));
        assert(s.skip(1).skip(k) =~= s.skip(k + 1));
        assert forall|i: int| 0 <= i < k + 1 implies white_space(#[trigger] s[i]) by {
            if i > 0 {
                assert(s.skip(1)[i - 1] == s[i]);
            }
        }
        k + 1
    } else {
        assert(s.skip(0) =~= s);
        0
    }
}

proof fn lemma_trimmed_end(s: Seq<char>) -> (k: int)
    ensures
        0 <= k <= s.len(),
        trimmed_end(s) == s.take(k),
        forall|i: int| k <= i < s.len() ==> white_space(#[trigger] s[i]),
        k > 0 ==> !white_space(s[k - 1]),
    decreases s.len(),
{
    if s.len() > 0 && white_space(s.last()) {
        let k = lemma_trimmed_end(s.drop_last());
        assert(s.drop_last().take(k) =~= s.take(k));
        assert forall|i: int| k <= i < s.len() implies white_space(#[trigger] s[i]) by {
            if i < s.len() - 1 {
                assert(s.drop_last()[i] == s[i]);
            }
        }
        k
    } else {
        assert(s.take(s.len() as int) =~= s);
        s.len() as int
    }
}

/// What is left of a text between white space is found, whatever stands around it.
pub proof fn law_trimming_takes_white_space_away(
    before: Seq<char>,
    s: Seq<char>,
    after: Seq<char>,
)
    requires
        forall|i: int| 0 <= i < before.len() ==> white_space(#[trigger] before[i]),
        forall|i: int| 0 <= i < after.len() ==> white_space(#[trigger] after[i]),
        s.len() > 0 ==> !white_space(s[0]) && !white_space(s.last()),
    ensures
        trimmed(before + s + after) == s,
{
    let whole = before + s + after;
    let k = lemma_trimmed_start(whole);
    let rest = whole.skip(k);
    let n = lemma_trimmed_end(rest);
    if s.len() == 0 {
        assert forall|i: int| 0 <= i < whole.len() implies white_space(#[trigger] whole[i]) by {
            if i < before.len() {
                assert(whole[i] == before[i]);
            } else {
                assert(whole[i] == after[i - before.len()]);
            }
        }
        assert(rest.len() == 0);
        assert(trimmed(whole) =~= s);
    } else {
        assert(whole[before.len() as int] == s[0]);
        if k < before.len() {
            assert(whole[k] == before[k]);
        }
        assert(k == before.len());
        assert(rest =~= s + after);
        assert(rest[s.len() - 1] == s.last());
        if n > s.len() {
            assert(rest[n - 1] == after[n - 1 - s.len()]);
        }
        assert(n == s.len());
        assert(rest.take(n) =~= s);
    }
}

/// Trimming leaves something of a text exactly where the text holds a character that is no white
/// space.
pub proof fn law_trimmed_is_empty_for_white_space(s: Seq<char>)
    ensures
        trimmed(s).len() == 0 <==> (forall|i: int|
            0 <= i < s.len() ==> white_space(#[trigger] s[i])),
{
    let k = lemma_trimmed_start(s);
    let rest = s.skip(k);
    let n = lemma_trimmed_end(rest);
    if k < s.len() {
        assert(rest[0] == s[k]);
        assert(n > 0);
    }
}

/// What stands before a run of `c` is found, however long the run is.
pub proof fn law_trailing_run_is_taken_away(s: Seq<char>, c: char, run: Seq<char>)
    requires
        s.len() > 0 ==> s.last() != c,
        forall|i: int| 0 <= i < run.len() ==> #[trigger] run[i] == c,
    ensures
        without_trailing(s + run, c) == s,
    decreases run.len(),
{
    if run.len() == 0 {
        assert(s + run =~= s);
    } else {
        assert((s + run).drop_last() =~= s + run.drop_last());
        law_trailing_run_is_taken_away(s, c, run.drop_last());
    }
}

/// Copies of a prefix are taken off, however many there are, and nothing else is.
pub proof fn law_leading_copies_are_taken_away(prefix: Seq<char>, s: Seq<char>)
    requires
        prefix.len() > 0,
    ensures
        without_leading(prefix + s, prefix) == without_leading(s, prefix),
        !prefix.is_prefix_of(s) ==> without_leading(s, prefix) == s,
{
    assert((prefix + s).take(prefix.len() as int) =~= prefix);
    assert((prefix + s).skip(prefix.len() as int) =~= s);
}

/// The last place of a character is where it stands with none behind it.
pub proof fn law_last_place(a: Seq<char>, c: char, x: Seq<char>)
    requires
        !x.contains(c),
    ensures
        last_place(a.push(c) + x, c) == a.len(),
        last_place(x, c) == -1,
    decreases x.len(),
{
    if x.len() == 0 {
        assert(a.push(c) + x =~= a.push(c));
    } else {
        assert(x[x.len() - 1] == x.last());
        assert((a.push(c) + x).drop_last() =~= a.push(c) + x.drop_last());
        assert forall|i: int| 0 <= i < x.drop_last().len() implies x.drop_last()[i] != c by {
            assert(x[i] != c);
        }
        law_last_place(a, c, x.drop_last());
    }
}

/// Bytes are in order by the first place at which they differ; where there is none, the shorter
/// ones come first.
pub proof fn law_bytes_are_ordered(same: Seq<u8>, a: Seq<u8>, b: Seq<u8>)
    requires
        a.len() > 0 && b.len() > 0 ==> a[0] != b[0],
    ensures
        bytes_at_most(same + a, same + b) <==> a.len() == 0 || (b.len() > 0 && a[0] < b[0]),
    decreases same.len(),
{
    if same.len() == 0 {
        assert(same + a =~= a);
        assert(same + b =~= b);
    } else {
        assert((same + a).skip(1) =~= same.skip(1) + a);
        assert((same + b).skip(1) =~= same.skip(1) + b);
        assert((same + a)[0] == same[0] && (same + b)[0] == same[0]);
        law_bytes_are_ordered(same.skip(1), a, b);
    }
}

} // verus!
