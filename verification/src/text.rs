//! Text in its UTF-8 form: equality, the byte order of keys, and decimal numerals.
use vstd::prelude::*;
use vstd::string::StringSliceAdditionalSpecFns;

verus! {

/// The bytes that hold `text` in UTF-8.
pub open spec fn utf8(text: Seq<char>) -> Seq<u8> {
    vstd::utf8::encode_utf8(text)
}

/// Two texts with the same UTF-8 bytes are the same text.
pub proof fn lemma_utf8_injective(a: Seq<char>, b: Seq<char>)
    requires
        utf8(a) == utf8(b),
    ensures
        a == b,
{
    vstd::utf8::encode_utf8_decode_utf8(a);
    vstd::utf8::encode_utf8_decode_utf8(b);
}

/// `a` and `b` agree before position `i`, where `a` ends or holds the smaller byte.
pub open spec fn differs_at(a: Seq<u8>, b: Seq<u8>, i: int) -> bool {
    &&& 0 <= i <= a.len()
    &&& i < b.len()
    &&& a.take(i) == b.take(i)
    &&& i < a.len() ==> a[i] < b[i]
}

/// Strict lexicographic order of byte strings.
pub open spec fn bytes_before(a: Seq<u8>, b: Seq<u8>) -> bool {
    exists|i: int| #[trigger] differs_at(a, b, i)
}

/// Strict order of texts by their UTF-8 bytes.
pub open spec fn text_before(a: Seq<char>, b: Seq<char>) -> bool {
    bytes_before(utf8(a), utf8(b))
}

proof fn lemma_take_equal(a: Seq<u8>, b: Seq<u8>, i: int, j: int)
    requires
        0 <= j < i,
        i <= a.len(),
        i <= b.len(),
        a.take(i) == b.take(i),
    ensures
        a[j] == b[j],
{
    assert(a.take(i)[j] == a[j]);
    assert(b.take(i)[j] == b[j]);
}

/// The byte order is transitive.
pub proof fn lemma_bytes_before_transitive(a: Seq<u8>, b: Seq<u8>, c: Seq<u8>)
    requires
        bytes_before(a, b),
        bytes_before(b, c),
    ensures
        bytes_before(a, c),
{
    let i = choose|i: int| #[trigger] differs_at(a, b, i);
    let j = choose|j: int| #[trigger] differs_at(b, c, j);
    let k = if i <= j { i } else { j };
    assert forall|x: int| 0 <= x < k implies a[x] == c[x] by {
        lemma_take_equal(a, b, i, x);
        lemma_take_equal(b, c, j, x);
    }
    assert(a.take(k) =~= c.take(k));
    if i < j {
        lemma_take_equal(b, c, j, i);
    } else if j < i {
        lemma_take_equal(a, b, i, j);
    }
    assert(differs_at(a, c, k));
}

/// No byte string stands before itself.
pub proof fn lemma_bytes_before_irreflexive(a: Seq<u8>)
    ensures
        !bytes_before(a, a),
{
}

/// The order of texts is transitive.
pub proof fn lemma_text_before_transitive(a: Seq<char>, b: Seq<char>, c: Seq<char>)
    requires
        text_before(a, b),
        text_before(b, c),
    ensures
        text_before(a, c),
{
    lemma_bytes_before_transitive(utf8(a), utf8(b), utf8(c));
}

/// Two texts never stand before one another in both directions.
pub proof fn lemma_text_before_asymmetric(a: Seq<char>, b: Seq<char>)
    requires
        text_before(a, b),
    ensures
        !text_before(b, a),
        a != b,
{
    if text_before(b, a) {
        lemma_bytes_before_transitive(utf8(a), utf8(b), utf8(a));
    }
    lemma_bytes_before_irreflexive(utf8(a));
}

/// Of two different byte strings one stands before the other.
proof fn lemma_bytes_before_total(a: Seq<u8>, b: Seq<u8>, n: int)
    requires
        a != b,
        0 <= n <= a.len(),
        n <= b.len(),
        a.take(n) == b.take(n),
    ensures
        bytes_before(a, b) || bytes_before(b, a),
    decreases a.len() - n,
{
    if n == a.len() && n == b.len() {
        assert(a =~= a.take(n));
        assert(b =~= b.take(n));
    } else if n == a.len() {
        assert(differs_at(a, b, n));
    } else if n == b.len() {
        assert(differs_at(b, a, n));
    } else if a[n] < b[n] {
        assert(differs_at(a, b, n));
    } else if b[n] < a[n] {
        assert(differs_at(b, a, n));
    } else {
        assert(a.take(n + 1) =~= a.take(n).push(a[n]));
        assert(b.take(n + 1) =~= b.take(n).push(b[n]));
        lemma_bytes_before_total(a, b, n + 1);
    }
}

/// Of two different texts one stands before the other.
pub proof fn lemma_text_before_total(a: Seq<char>, b: Seq<char>)
    requires
        a != b,
    ensures
        text_before(a, b) || text_before(b, a),
{
    if utf8(a) == utf8(b) {
        lemma_utf8_injective(a, b);
    }
    assert(utf8(a).take(0) =~= utf8(b).take(0));
    lemma_bytes_before_total(utf8(a), utf8(b), 0);
}

/// Where a text stands in relation to another.
#[derive(Debug, Clone, Copy, PartialEq, Eq, Structural)]
pub enum Side {
    Before,
    Same,
    After,
}

/// Compares two byte strings lexicographically.
pub fn side_of_bytes(a: &[u8], b: &[u8]) -> (side: Side)
    ensures
        side == Side::Before <==> bytes_before(a@, b@),
        side == Side::Same <==> a@ == b@,
        side == Side::After <==> bytes_before(b@, a@),
{
    let mut i: usize = 0;
    while i < a.len() && i < b.len() && a[i] == b[i]
        invariant
            i <= a.len(),
            i <= b.len(),
            a@.take(i as int) =~= b@.take(i as int),
        decreases a.len() - i,
    {
        assert(a@.take(i + 1) =~= a@.take(i as int).push(a@[i as int]));
        assert(b@.take(i + 1) =~= b@.take(i as int).push(b@[i as int]));
        i = i + 1;
    }
    proof {
        lemma_bytes_before_irreflexive(a@);
        if bytes_before(a@, b@) && bytes_before(b@, a@) {
            lemma_bytes_before_transitive(a@, b@, a@);
        }
    }
    if i < b.len() && (i == a.len() || a[i] < b[i]) {
        assert(differs_at(a@, b@, i as int));
        Side::Before
    } else if i < a.len() {
        assert(differs_at(b@, a@, i as int));
        Side::After
    } else {
        assert(a@ =~= a@.take(i as int));
        assert(b@ =~= b@.take(i as int));
        Side::Same
    }
}

/// Compares two texts by their UTF-8 bytes.
pub fn side_of(a: &str, b: &str) -> (side: Side)
    ensures
        side == Side::Before <==> text_before(a@, b@),
        side == Side::Same <==> a@ == b@,
        side == Side::After <==> text_before(b@, a@),
{
    let side = side_of_bytes(a.as_bytes(), b.as_bytes());
    proof {
        if utf8(a@) == utf8(b@) {
            lemma_utf8_injective(a@, b@);
        }
    }
    side
}

/// Whether two texts are the same.
pub fn same_text(a: &str, b: &str) -> (same: bool)
    ensures
        same == (a@ == b@),
{
    side_of(a, b) == Side::Same
}

/// Whether two optional texts are the same.
pub fn same_optional(a: &Option<String>, b: &Option<String>) -> (same: bool)
    ensures
        same == (optional_text(*a) == optional_text(*b)),
{
    match (a, b) {
        (None, None) => true,
        (Some(a), Some(b)) => same_text(a.as_str(), b.as_str()),
        _ => false,
    }
}

/// Whether two byte strings are the same.
pub fn same_bytes(a: &[u8], b: &[u8]) -> (same: bool)
    ensures
        same == (a@ == b@),
{
    side_of_bytes(a, b) == Side::Same
}

/// Whether `bytes` holds `byte`.
pub fn holds_byte(bytes: &[u8], byte: u8) -> (found: bool)
    ensures
        found == bytes@.contains(byte),
{
    let mut i: usize = 0;
    while i < bytes.len()
        invariant
            i <= bytes.len(),
            forall|j: int| 0 <= j < i ==> bytes@[j] != byte,
        decreases bytes.len() - i,
    {
        if bytes[i] == byte {
            assert(bytes@[i as int] == byte);
            return true;
        }
        i = i + 1;
    }
    false
}

/// The content of an optional text.
pub open spec fn optional_text(text: Option<String>) -> Option<Seq<char>> {
    match text {
        Some(text) => Some(text@),
        None => None,
    }
}

/// The number of UTF-8 bytes in a text.
pub fn byte_len(text: &str) -> (len: usize)
    ensures
        len == utf8(text@).len(),
{
    text.as_bytes().len()
}

/// The character of a decimal digit.
pub open spec fn digit(d: nat) -> char {
    if d == 0 {
        '0'
    } else if d == 1 {
        '1'
    } else if d == 2 {
        '2'
    } else if d == 3 {
        '3'
    } else if d == 4 {
        '4'
    } else if d == 5 {
        '5'
    } else if d == 6 {
        '6'
    } else if d == 7 {
        '7'
    } else if d == 8 {
        '8'
    } else {
        '9'
    }
}

/// The decimal numeral of `n`, without leading zeros.
pub open spec fn decimal(n: nat) -> Seq<char>
    decreases n,
{
    if n < 10 {
        seq![digit(n)]
    } else {
        decimal(n / 10).push(digit(n % 10))
    }
}

/// The numeral of `n`.
pub fn numeral(n: u128) -> (text: String)
    ensures
        text@ == decimal(n as nat),
    decreases n,
{
    let mut text = if n < 10 {
        String::new()
    } else {
        numeral(n / 10)
    };
    let ghost head = text@;
    let last: u128 = n % 10;
    proof {
        reveal_strlit("0");
        reveal_strlit("1");
        reveal_strlit("2");
        reveal_strlit("3");
        reveal_strlit("4");
        reveal_strlit("5");
        reveal_strlit("6");
        reveal_strlit("7");
        reveal_strlit("8");
        reveal_strlit("9");
    }
    if last == 0 {
        text.append("0");
    } else if last == 1 {
        text.append("1");
    } else if last == 2 {
        text.append("2");
    } else if last == 3 {
        text.append("3");
    } else if last == 4 {
        text.append("4");
    } else if last == 5 {
        text.append("5");
    } else if last == 6 {
        text.append("6");
    } else if last == 7 {
        text.append("7");
    } else if last == 8 {
        text.append("8");
    } else {
        text.append("9");
    }
    assert(text@ =~= head.push(digit(last as nat)));
    text
}

/// Whether `c` is one of the ten digits.
pub open spec fn is_digit(c: char) -> bool {
    '0' <= c && c <= '9'
}

/// A nonempty run of digits without a leading zero, except in "0" itself.
pub open spec fn canonical(text: Seq<char>) -> bool {
    &&& text.len() > 0
    &&& text.len() > 1 ==> text[0] != '0'
    &&& forall|i: int| 0 <= i < text.len() ==> is_digit(#[trigger] text[i])
}

/// The number that a run of digits denotes.
pub open spec fn number(text: Seq<char>) -> nat
    decreases text.len(),
{
    if text.len() == 0 {
        0
    } else {
        number(text.drop_last()) * 10 + (text.last() as u32 - '0' as u32) as nat
    }
}

/// Every numeral is canonical and denotes the number that it was written for.
pub proof fn lemma_decimal(n: nat)
    ensures
        canonical(decimal(n)),
        number(decimal(n)) == n,
        n > 0 ==> decimal(n)[0] != '0',
    decreases n,
{
    if n < 10 {
        let text = decimal(n);
        assert(text.drop_last() =~= Seq::<char>::empty());
        assert(number(text.drop_last()) == 0);
    } else {
        lemma_decimal(n / 10);
        let head = decimal(n / 10);
        let text = decimal(n);
        assert(text.drop_last() =~= head);
        assert(text[0] == head[0]);
        assert(n / 10 > 0);
        assert((n / 10) * 10 + n % 10 == n);
    }
}

/// A canonical run of digits is the numeral of what it denotes.
pub proof fn lemma_canonical(text: Seq<char>)
    requires
        canonical(text),
    ensures
        decimal(number(text)) == text,
        text[0] != '0' ==> number(text) > 0,
    decreases text.len(),
{
    let head = text.drop_last();
    let last = (text.last() as u32 - '0' as u32) as nat;
    assert(is_digit(text[text.len() - 1]));
    assert(last < 10);
    assert(digit(last) == text.last());
    if text.len() == 1 {
        assert(head =~= Seq::<char>::empty());
        assert(number(head) == 0);
        assert(decimal(last) =~= text);
    } else {
        assert forall|i: int| 0 <= i < head.len() implies is_digit(#[trigger] head[i]) by {
            assert(head[i] == text[i]);
        }
        assert(head[0] == text[0]);
        lemma_canonical(head);
        let n = number(text);
        assert(n == number(head) * 10 + last);
        assert(n >= 10);
        assert(n / 10 == number(head));
        assert(n % 10 == last);
        assert(decimal(n) =~= head.push(digit(last)));
        assert(text =~= head.push(text.last()));
    }
}

/// The bytes of a text made of ASCII digits are its characters.
pub proof fn lemma_digits_are_bytes(text: Seq<char>)
    requires
        forall|i: int| 0 <= i < text.len() ==> is_digit(#[trigger] text[i]),
    ensures
        utf8(text) == Seq::new(text.len(), |i: int| text[i] as u8),
{
    assert(vstd::utf8::is_ascii_chars(text));
    vstd::utf8::is_ascii_chars_encode_utf8(text);
}

/// Texts are ordered by the first byte of their UTF-8 form in which they differ; a text comes before
/// every other that begins with it.
pub proof fn the_first_difference_decides(a: Seq<char>, b: Seq<char>, i: int)
    requires
        ({
            let x = vstd::utf8::encode_utf8(a);
            let y = vstd::utf8::encode_utf8(b);
            &&& 0 <= i <= x.len()
            &&& i < y.len()
            &&& forall|j: int| 0 <= j < i ==> x[j] == y[j]
            &&& i < x.len() ==> x[i] < y[i]
        }),
    ensures
        text_before(a, b),
        !text_before(b, a),
        a != b,
{
    let x = utf8(a);
    let y = utf8(b);
    assert(x.take(i) =~= y.take(i));
    assert(differs_at(x, y, i));
    if bytes_before(y, x) {
        let k = choose|k: int| differs_at(y, x, k);
        if k < i {
            assert(x[k] == y[k]);
        } else if k > i {
            lemma_take_equal(y, x, k, i);
        }
    }
}

/// A numeral is written in the decimal system: its last digit is what is left of the number after a
/// division by ten, and the digits before are the numeral of the quotient. Exactly the numerals are
/// read, each as its number.
pub proof fn numerals_are_decimal(n: nat, text: Seq<char>)
    ensures
        decimal(n).len() > 0,
        decimal(n).last() as u32 == 48 + n % 10,
        n < 10 ==> decimal(n).len() == 1,
        n >= 10 ==> decimal(n).drop_last() == decimal(n / 10),
        canonical(text) <==> exists|m: nat| #[trigger] decimal(m) == text,
        decimal(n) == text ==> number(text) == n,
{
    lemma_decimal(n);
    if n >= 10 {
        assert(decimal(n).drop_last() =~= decimal(n / 10));
    }
    if canonical(text) {
        lemma_canonical(text);
        assert(decimal(number(text)) == text);
    }
    if exists|m: nat| #[trigger] decimal(m) == text {
        let m = choose|m: nat| #[trigger] decimal(m) == text;
        lemma_decimal(m);
    }
}

} // verus!
