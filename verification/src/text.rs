//! Text helpers: white space, trimming, decimal numbers and UUID text.
use vstd::prelude::*;

verus! {

/// The characters that carry the Unicode `White_Space` property.
pub open spec fn is_white_space(c: char) -> bool {
    let u = c as u32;
    ||| 0x09 <= u <= 0x0d
    ||| u == 0x20
    ||| u == 0x85
    ||| u == 0xa0
    ||| u == 0x1680
    ||| 0x2000 <= u <= 0x200a
    ||| u == 0x2028
    ||| u == 0x2029
    ||| u == 0x202f
    ||| u == 0x205f
    ||| u == 0x3000
}

/// A text is blank when all of its characters are white space (the empty
/// text among them): exactly the texts whose trimmed form is empty.
pub open spec fn is_blank(s: Seq<char>) -> bool {
    forall|i: int| 0 <= i < s.len() ==> is_white_space(#[trigger] s[i])
}

/// The text without its leading and trailing white space.
pub open spec fn trimmed(s: Seq<char>) -> Seq<char>
    decreases s.len(),
{
    if s.len() == 0 {
        s
    } else if is_white_space(s[0]) {
        trimmed(s.drop_first())
    } else if is_white_space(s.last()) {
        trimmed(s.drop_last())
    } else {
        s
    }
}

/// `char::is_whitespace`. Its documentation says that it is true exactly for
/// the characters with the Unicode `White_Space` property.
#[verifier::external_body]
pub(crate) fn char_is_whitespace(c: char) -> (b: bool)
    ensures
        b == is_white_space(c),
{
    c.is_whitespace()
}

/// `String::push`: appends the character to the end of the string.
#[verifier::external_body]
pub(crate) fn push_char(s: &mut String, c: char)
    ensures
        final(s)@ == old(s)@.push(c),
{
    s.push(c)
}

/// The characters of a string slice, in order.
pub fn chars_of(s: &str) -> (r: Vec<char>)
    ensures
        r@ == s@,
{
    broadcast use vstd::string::group_string_axioms;
    let mut out: Vec<char> = Vec::new();
    for c in it: s.chars()
        invariant
            out@ == it.seq().take(it.index() as int),
    {
        out.push(c);
    }
    assert(out@ =~= s@);
    out
}

/// Whether every character of the text is white space.
pub fn is_blank_text(s: &str) -> (b: bool)
    ensures
        b == is_blank(s@),
{
    let chars = chars_of(s);
    let mut i: usize = 0;
    while i < chars.len()
        invariant
            chars@ == s@,
            i <= chars@.len(),
            forall|j: int| 0 <= j < i ==> is_white_space(#[trigger] s@[j]),
        decreases chars@.len() - i,
    {
        if !char_is_whitespace(chars[i]) {
            return false;
        }
        i = i + 1;
    }
    true
}

/// When the characters before `lo` and from `hi` on are white space, and the
/// characters at `lo` and `hi - 1` are not (where `lo < hi`), the trimmed text
/// is the part between them.
pub proof fn lemma_trimmed_between(s: Seq<char>, lo: int, hi: int)
    requires
        0 <= lo <= hi <= s.len(),
        forall|i: int| 0 <= i < lo ==> is_white_space(#[trigger] s[i]),
        forall|i: int| hi <= i < s.len() ==> is_white_space(#[trigger] s[i]),
        lo < hi ==> !is_white_space(s[lo]) && !is_white_space(s[hi - 1]),
        lo == hi ==> lo == 0,
    ensures
        trimmed(s) == s.subrange(lo, hi),
    decreases s.len(),
{
    if s.len() == 0 {
        assert(s.subrange(lo, hi) =~= s);
    } else if is_white_space(s[0]) {
        let t = s.drop_first();
        if lo == hi {
            lemma_trimmed_between(t, 0, 0);
            assert(s.subrange(lo, hi) =~= t.subrange(0, 0));
        } else {
            assert(lo > 0);
            lemma_trimmed_between(t, lo - 1, hi - 1);
            assert(s.subrange(lo, hi) =~= t.subrange(lo - 1, hi - 1));
        }
    } else {
        assert(lo == 0 && lo < hi);
        if is_white_space(s.last()) {
            assert(hi < s.len());
            let t = s.drop_last();
            lemma_trimmed_between(t, lo, hi);
            assert(s.subrange(lo, hi) =~= t.subrange(lo, hi));
        } else {
            assert(hi == s.len());
            assert(s.subrange(lo, hi) =~= s);
        }
    }
}

/// `str::trim` followed by `to_string`: the text without leading and trailing
/// white space.
pub fn trim_text(s: &str) -> (r: String)
    ensures
        r@ == trimmed(s@),
{
    let chars = chars_of(s);
    let n = chars.len();
    let mut lo: usize = 0;
    while lo < n && char_is_whitespace(chars[lo])
        invariant
            chars@ == s@,
            n == chars@.len(),
            lo <= n,
            forall|i: int| 0 <= i < lo ==> is_white_space(#[trigger] s@[i]),
        decreases n - lo,
    {
        lo = lo + 1;
    }
    let mut hi: usize = n;
    while hi > lo && char_is_whitespace(chars[hi - 1])
        invariant
            chars@ == s@,
            n == chars@.len(),
            lo <= hi <= n,
            forall|i: int| hi <= i < n ==> is_white_space(#[trigger] s@[i]),
        decreases hi - lo,
    {
        hi = hi - 1;
    }
    let ghost (glo, ghi) = if lo == hi { (0int, 0int) } else { (lo as int, hi as int) };
    proof {
        if lo == hi {
            assert forall|i: int| 0 <= i < s@.len() implies is_white_space(#[trigger] s@[i]) by {
                if i < lo {
                } else {
                }
            }
        }
        lemma_trimmed_between(s@, glo, ghi);
    }
    let mut out = String::new();
    let mut i: usize = lo;
    while i < hi
        invariant
            chars@ == s@,
            lo <= i <= hi <= n,
            n == chars@.len(),
            out@ == s@.subrange(lo as int, i as int),
        decreases hi - i,
    {
        push_char(&mut out, chars[i]);
        i = i + 1;
        assert(out@ =~= s@.subrange(lo as int, i as int));
    }
    assert(out@ =~= s@.subrange(glo, ghi));
    out
}

/// The decimal digit character for `d` (0 to 9).
pub open spec fn decimal_digit(d: int) -> char {
    seq!['0', '1', '2', '3', '4', '5', '6', '7', '8', '9'][d]
}

/// The decimal notation of a natural number, without leading zeros.
pub open spec fn decimal(n: nat) -> Seq<char>
    decreases n,
{
    if n < 10 {
        seq![decimal_digit(n as int)]
    } else {
        decimal(n / 10).push(decimal_digit((n % 10) as int))
    }
}

fn digit_char(d: u64) -> (c: char)
    requires
        d < 10,
    ensures
        c == decimal_digit(d as int),
{
    if d == 0 {
        '0'
    } else if d == 1 {
        '1'
    } else if d == 2 {
        '2'
    } else if d == 3 {
        '3'
    } else if d == 4 {
        '4'
    } else if d == 5 {
        '5'
    } else if d == 6 {
        '6'
    } else if d == 7 {
        '7'
    } else if d == 8 {
        '8'
    } else {
        '9'
    }
}

/// Appends the decimal notation of `n`.
pub fn push_decimal(out: &mut String, n: u64)
    ensures
        final(out)@ == old(out)@ + decimal(n as nat),
    decreases n,
{
    if n >= 10 {
        push_decimal(out, n / 10);
    }
    push_char(out, digit_char(n % 10));
    proof {
        if n >= 10 {
            assert(decimal(n as nat) == decimal((n / 10) as nat).push(decimal_digit((n % 10) as int)));
        }
    }
    assert(out@ =~= old(out)@ + decimal(n as nat));
}

/// The lower-case hexadecimal digit character for `d` (0 to 15).
pub open spec fn hex_digit(d: int) -> char {
    seq!['0', '1', '2', '3', '4', '5', '6', '7', '8', '9', 'a', 'b', 'c', 'd', 'e', 'f'][d]
}

/// The `k`-th of the 32 hexadecimal digits of `id`, most significant first.
pub open spec fn nibble(id: u128, k: int) -> int {
    ((id >> ((124 - 4 * k) as u128)) & 0xf) as int
}

/// The 32 hexadecimal digits of `id`, most significant first.
pub open spec fn hex_digits(id: u128) -> Seq<char> {
    Seq::new(32, |k: int| hex_digit(nibble(id, k)))
}

/// The hyphenated text of a UUID whose 128 bits, read big-endian, are `id`:
/// its 32 lower-case hexadecimal digits in groups of 8, 4, 4, 4 and 12,
/// separated by hyphens.
pub open spec fn uuid_text(id: u128) -> Seq<char> {
    let d = hex_digits(id);
    d.subrange(0, 8) + seq!['-'] + d.subrange(8, 12) + seq!['-'] + d.subrange(12, 16) + seq![
        '-',
    ] + d.subrange(16, 20) + seq!['-'] + d.subrange(20, 32)
}

/// `Uuid::from_u128(id).to_string()`. The uuid crate reads the 128 bits
/// big-endian and displays the UUID in its hyphenated, lower-case form, which
/// is `uuid_text(id)`.
#[verifier::external_body]
pub(crate) fn uuid_to_text(id: u128) -> (s: String)
    ensures
        s@ == uuid_text(id),
{
    uuid::Uuid::from_u128(id).to_string()
}

/// The views of a list of strings.
pub open spec fn texts(v: Seq<String>) -> Seq<Seq<char>> {
    v.map_values(|s: String| s@)
}

/// Whether two texts are equal.
pub fn string_equals(a: &str, b: &str) -> (r: bool)
    ensures
        r == (a@ == b@),
{
    let ac = chars_of(a);
    let bc = chars_of(b);
    if ac.len() != bc.len() {
        return false;
    }
    let mut i: usize = 0;
    while i < ac.len()
        invariant
            ac@ == a@,
            bc@ == b@,
            ac@.len() == bc@.len(),
            i <= ac@.len(),
            forall|j: int| 0 <= j < i ==> #[trigger] ac@[j] == bc@[j],
        decreases ac@.len() - i,
    {
        if ac[i] != bc[i] {
            return false;
        }
        i = i + 1;
    }
    assert(a@ =~= b@);
    true
}

/// The value of a lower-case hexadecimal digit character.
pub open spec fn hex_value(c: char) -> int {
    if '0' <= c <= '9' {
        (c as int) - ('0' as int)
    } else {
        (c as int) - ('a' as int) + 10
    }
}

/// A hexadecimal digit character gives back its value.
pub proof fn lemma_hex_digit_value(d: int)
    requires
        0 <= d < 16,
    ensures
        hex_value(hex_digit(d)) == d,
{
    if d == 0 {
        assert(hex_digit(0) == '0');
    } else if d == 1 {
        assert(hex_digit(1) == '1');
    } else if d == 2 {
        assert(hex_digit(2) == '2');
    } else if d == 3 {
        assert(hex_digit(3) == '3');
    } else if d == 4 {
        assert(hex_digit(4) == '4');
    } else if d == 5 {
        assert(hex_digit(5) == '5');
    } else if d == 6 {
        assert(hex_digit(6) == '6');
    } else if d == 7 {
        assert(hex_digit(7) == '7');
    } else if d == 8 {
        assert(hex_digit(8) == '8');
    } else if d == 9 {
        assert(hex_digit(9) == '9');
    } else if d == 10 {
        assert(hex_digit(10) == 'a');
    } else if d == 11 {
        assert(hex_digit(11) == 'b');
    } else if d == 12 {
        assert(hex_digit(12) == 'c');
    } else if d == 13 {
        assert(hex_digit(13) == 'd');
    } else if d == 14 {
        assert(hex_digit(14) == 'e');
    } else {
        assert(hex_digit(15) == 'f');
    }
}

/// A nibble is a number from 0 to 15.
pub proof fn lemma_nibble_range(id: u128, k: int)
    ensures
        0 <= nibble(id, k) < 16,
{
    let s = (124 - 4 * k) as u128;
    assert((id >> s) & 0xf <= 0xf) by (bit_vector);
}

/// Shifting right by `s` keeps what shifting by `s + 4` keeps, moved up by
/// four bits, and the nibble at `s` below it.
pub proof fn lemma_shift_by_nibble(x: u128, s: u128)
    by (bit_vector)
    requires
        s <= 124,
    ensures
        x >> s == ((x >> (s + 4)) << 4u128) | ((x >> s) & 0xf),
{
}

/// Numbers whose first `j` nibbles, from the most significant one, agree
/// have the same top `4 * j` bits.
pub proof fn lemma_top_nibbles_equal(a: u128, b: u128, j: int)
    requires
        1 <= j <= 32,
        forall|k: int| 0 <= k < j ==> nibble(a, k) == nibble(b, k),
    ensures
        a >> ((128 - 4 * j) as u128) == b >> ((128 - 4 * j) as u128),
    decreases j,
{
    if j == 1 {
        assert(nibble(a, 0) == nibble(b, 0));
        assert(a >> 124u128 == (a >> 124u128) & 0xf) by (bit_vector);
        assert(b >> 124u128 == (b >> 124u128) & 0xf) by (bit_vector);
    } else {
        lemma_top_nibbles_equal(a, b, j - 1);
        let s = (128 - 4 * j) as u128;
        assert(nibble(a, j - 1) == nibble(b, j - 1));
        assert(s + 4 == (128 - 4 * (j - 1)) as u128);
        lemma_shift_by_nibble(a, s);
        lemma_shift_by_nibble(b, s);
    }
}

/// Different UUIDs have different texts.
pub proof fn lemma_uuid_text_injective(a: u128, b: u128)
    requires
        uuid_text(a) == uuid_text(b),
    ensures
        a == b,
{
    let da = hex_digits(a);
    let db = hex_digits(b);
    let ta = uuid_text(a);
    let tb = uuid_text(b);
    assert forall|k: int| 0 <= k < 32 implies nibble(a, k) == nibble(b, k) by {
        let pos = if k < 8 {
            k
        } else if k < 12 {
            k + 1
        } else if k < 16 {
            k + 2
        } else if k < 20 {
            k + 3
        } else {
            k + 4
        };
        assert(ta[pos] == da[k]);
        assert(tb[pos] == db[k]);
        lemma_nibble_range(a, k);
        lemma_nibble_range(b, k);
        lemma_hex_digit_value(nibble(a, k));
        lemma_hex_digit_value(nibble(b, k));
    }
    lemma_top_nibbles_equal(a, b, 32);
    assert(a >> 0u128 == a && b >> 0u128 == b) by (bit_vector);
}

} // verus!
