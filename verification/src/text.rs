//! Text as sequences of characters: numbers in and out, trimming, splitting and searching.

use vstd::prelude::*;
use vstd::utf8::{encode_utf8, valid_utf8};

verus! {

/// `String::push` appends one character.
pub assume_specification[ String::push ](s: &mut String, c: char)
    ensures
        final(s)@ == old(s)@.push(c),
;

/// `std::str::from_utf8`: the text some bytes encode, exactly where they are valid UTF-8.
#[verifier::external_body]
pub(crate) fn utf8(data: &[u8]) -> (r: Option<String>)
    ensures
        match r {
            Some(s) => valid_utf8(data@) && encode_utf8(s@) == data@,
            None => !valid_utf8(data@),
        },
{
    match std::str::from_utf8(data) {
        Ok(s) => Some(s.to_owned()),
        Err(_) => None,
    }
}

/// The text `String::from_utf8_lossy` makes of some bytes.
pub uninterp spec fn lossy(data: Seq<u8>) -> Seq<char>;

/// `String::from_utf8_lossy`: valid UTF-8 comes out as the text it encodes. What stands for
/// invalid bytes depends on the bytes alone and is only named here.
#[verifier::external_body]
pub(crate) fn utf8_lossy(data: &[u8]) -> (s: String)
    ensures
        s@ == lossy(data@),
        valid_utf8(data@) ==> encode_utf8(s@) == data@,
{
    String::from_utf8_lossy(data).into_owned()
}

/// What `str::to_uppercase` makes of a text.
pub uninterp spec fn uppercase(s: Seq<char>) -> Seq<char>;

/// `str::to_uppercase`: the text in upper case by the rules of Unicode, which depend on the text
/// alone and are only named here.
#[verifier::external_body]
pub(crate) fn to_upper(s: &str) -> (out: String)
    ensures
        out@ == uppercase(s@),
{
    s.to_uppercase()
}

/// What `str::to_lowercase` makes of a text.
pub uninterp spec fn lowercase(s: Seq<char>) -> Seq<char>;

/// `str::to_lowercase`: the text in lower case by the rules of Unicode, which depend on the text
/// alone and are only named here.
#[verifier::external_body]
pub(crate) fn to_lower(s: &str) -> (out: String)
    ensures
        out@ == lowercase(s@),
{
    s.to_lowercase()
}

/// How `{:?}` writes a text.
pub uninterp spec fn debug_text(s: Seq<char>) -> Seq<char>;

/// `format!` with the debug form of a text, its quotes and escapes included. The form depends on
/// the text alone and is only named here.
#[verifier::external_body]
pub(crate) fn quoted(s: &str) -> (out: String)
    ensures
        out@ == debug_text(s@),
{
    format!("{s:?}")
}

/// The characters of each text in a list.
pub open spec fn views(list: Seq<String>) -> Seq<Seq<char>> {
    Seq::new(list.len(), |i: int| list[i]@)
}

/// The character of one digit, in lower case above nine.
#[verifier::opaque]
pub open spec fn digit(n: int) -> char {
    if n == 0 { '0' } else if n == 1 { '1' } else if n == 2 { '2' } else if n == 3 { '3' }
    else if n == 4 { '4' } else if n == 5 { '5' } else if n == 6 { '6' } else if n == 7 { '7' }
    else if n == 8 { '8' } else if n == 9 { '9' } else if n == 10 { 'a' } else if n == 11 { 'b' }
    else if n == 12 { 'c' } else if n == 13 { 'd' } else if n == 14 { 'e' } else { 'f' }
}

/// An ASCII letter in upper case, anything else as it is.
pub open spec fn upper(c: char) -> char {
    if 'a' <= c <= 'z' { ((c as u32 - 32) as u8) as char } else { c }
}

/// The value of one digit in any base up to sixteen.
pub open spec fn digit_value(c: char) -> Option<int> {
    if '0' <= c <= '9' {
        Some(c as u32 - 48)
    } else if 'a' <= c <= 'f' {
        Some(c as u32 - 87)
    } else if 'A' <= c <= 'F' {
        Some(c as u32 - 55)
    } else {
        None
    }
}

/// A number written in a base, without leading zeros.
pub open spec fn numeral(n: nat, radix: nat) -> Seq<char>
    decreases n,
{
    if radix < 2 || n < radix {
        seq![digit(n as int)]
    } else {
        proof {
            assert(0 <= n / radix < n) by (nonlinear_arith)
                requires n >= radix, radix >= 2;
        }
        numeral((n / radix) as nat, radix).push(digit((n % radix) as int))
    }
}

/// A number in decimal.
pub open spec fn dec(n: nat) -> Seq<char> {
    numeral(n, 10)
}

/// A number in lower case hexadecimal.
pub open spec fn hex(n: nat) -> Seq<char> {
    numeral(n, 16)
}

/// A text filled up with zeros on the left to a width.
pub open spec fn zero_pad(s: Seq<char>, width: nat) -> Seq<char> {
    if s.len() >= width { s } else { Seq::new((width - s.len()) as nat, |i: int| '0') + s }
}

/// A byte as two lower case hexadecimal digits.
pub open spec fn hex2(b: u8) -> Seq<char> {
    seq![digit(b as int / 16), digit(b as int % 16)]
}

/// A byte as two upper case hexadecimal digits.
pub open spec fn hex2_upper(b: u8) -> Seq<char> {
    seq![upper(digit(b as int / 16)), upper(digit(b as int % 16))]
}

/// A byte string in lower case hexadecimal.
pub open spec fn hex_text(data: Seq<u8>) -> Seq<char>
    decreases data.len(),
{
    if data.len() == 0 {
        Seq::empty()
    } else {
        hex_text(data.drop_last()) + hex2(data.last())
    }
}

/// White space as Unicode defines it.
pub open spec fn is_space(c: char) -> bool {
    ||| '\u{9}' <= c <= '\u{d}'
    ||| c == ' '
    ||| c == '\u{85}'
    ||| c == '\u{a0}'
    ||| c == '\u{1680}'
    ||| '\u{2000}' <= c <= '\u{200a}'
    ||| c == '\u{2028}'
    ||| c == '\u{2029}'
    ||| c == '\u{202f}'
    ||| c == '\u{205f}'
    ||| c == '\u{3000}'
}

/// The text without the white space in front.
pub open spec fn trim_start(s: Seq<char>) -> Seq<char>
    decreases s.len(),
{
    if s.len() > 0 && is_space(s[0]) { trim_start(s.skip(1)) } else { s }
}

/// The text without the white space at its end.
pub open spec fn trim_end(s: Seq<char>) -> Seq<char>
    decreases s.len(),
{
    if s.len() > 0 && is_space(s.last()) { trim_end(s.drop_last()) } else { s }
}

/// The text without the white space around it.
pub open spec fn trim(s: Seq<char>) -> Seq<char> {
    trim_end(trim_start(s))
}

/// Where a character first occurs, or the length where it does not.
pub open spec fn first(s: Seq<char>, c: char) -> nat
    decreases s.len(),
{
    if s.len() == 0 || s[0] == c { 0 } else { 1 + first(s.skip(1), c) }
}

/// The pieces between the occurrences of a character.
pub open spec fn split_on(s: Seq<char>, c: char) -> Seq<Seq<char>>
    decreases s.len(),
{
    let i = first(s, c) as int;
    if i >= s.len() {
        seq![s]
    } else {
        seq![s.take(i)] + split_on(s.skip(i + 1), c)
    }
}

/// The pieces of a text that hold no white space, in order, the empty ones left out.
pub open spec fn words(s: Seq<char>) -> Seq<Seq<char>>
    decreases s.len(),
{
    let t = trim_start(s);
    if t.len() == 0 || t.len() > s.len() {
        Seq::empty()
    } else {
        let n = word_len(t) as int;
        if n <= 0 || n > t.len() {
            Seq::empty()
        } else {
            seq![t.take(n)] + words(t.skip(n))
        }
    }
}

/// How many characters come before the first white space.
pub open spec fn word_len(s: Seq<char>) -> nat
    decreases s.len(),
{
    if s.len() == 0 || is_space(s[0]) { 0 } else { 1 + word_len(s.skip(1)) }
}

/// A line without the carriage return at its end.
pub open spec fn bare_line(s: Seq<char>) -> Seq<char> {
    if s.len() > 0 && s.last() == '\r' { s.drop_last() } else { s }
}

/// The lines of a text. A line break at the end starts no further line, and a carriage return
/// belongs to the line break that follows it.
pub open spec fn lines(s: Seq<char>) -> Seq<Seq<char>>
    decreases s.len(),
{
    let i = first(s, '\n') as int;
    if s.len() == 0 {
        Seq::empty()
    } else if i >= s.len() {
        seq![s]
    } else {
        seq![bare_line(s.take(i))] + lines(s.skip(i + 1))
    }
}

/// Whether a text begins with another.
pub open spec fn starts_with(s: Seq<char>, p: Seq<char>) -> bool {
    p.len() <= s.len() && s.take(p.len() as int) == p
}

/// Whether a text stands in another at a place.
pub open spec fn stands_at(s: Seq<char>, p: Seq<char>, i: int) -> bool {
    0 <= i && i + p.len() <= s.len() && s.subrange(i, i + p.len()) == p
}

/// Whether a text occurs in another.
pub open spec fn contains(s: Seq<char>, p: Seq<char>) -> bool {
    exists|i: int| #[trigger] stands_at(s, p, i)
}

/// A text without any number of one prefix.
pub open spec fn stripped(s: Seq<char>, p: Seq<char>) -> Seq<char>
    decreases s.len(),
{
    if p.len() > 0 && starts_with(s, p) { stripped(s.skip(p.len() as int), p) } else { s }
}

/// A text without any of one character at its front and at its end.
pub open spec fn unquoted(s: Seq<char>, c: char) -> Seq<char>
    decreases s.len(),
{
    if s.len() > 0 && s[0] == c {
        unquoted(s.skip(1), c)
    } else if s.len() > 0 && s.last() == c {
        unquoted(s.drop_last(), c)
    } else {
        s
    }
}

/// Where a text first occurs in another at or behind a place.
pub open spec fn place_of(s: Seq<char>, p: Seq<char>, from: int) -> Option<int>
    decreases s.len() - from,
{
    if from < 0 || from + p.len() > s.len() {
        None
    } else if stands_at(s, p, from) {
        Some(from)
    } else if from >= s.len() {
        None
    } else {
        place_of(s, p, from + 1)
    }
}

/// What follows the last occurrence of a character, all of it where it does not occur.
pub open spec fn after_last(s: Seq<char>, c: char) -> Seq<char>
    decreases s.len(),
{
    let at = first(s, c) as int;
    if at >= s.len() { s } else { after_last(s.skip(at + 1), c) }
}

/// Texts one after the other, with a separator between them.
pub open spec fn join(parts: Seq<Seq<char>>, sep: Seq<char>) -> Seq<char>
    decreases parts.len(),
{
    if parts.len() == 0 {
        Seq::empty()
    } else if parts.len() == 1 {
        parts[0]
    } else {
        join(parts.drop_last(), sep) + sep + parts.last()
    }
}

/// The value of a run of digits, where all of them are digits of the base.
pub open spec fn digits_value(s: Seq<char>, radix: int) -> Option<int>
    decreases s.len(),
{
    if s.len() == 0 {
        Some(0)
    } else {
        match (digits_value(s.drop_last(), radix), digit_value(s.last())) {
            (Some(v), Some(d)) => if d < radix { Some(v * radix + d) } else { None },
            _ => None,
        }
    }
}

/// The number a text writes: digits, with an optional plus sign in front, up to a largest value.
pub open spec fn unsigned(s: Seq<char>, radix: int, max: int) -> Option<int> {
    let body = if s.len() > 0 && s[0] == '+' { s.skip(1) } else { s };
    match digits_value(body, radix) {
        Some(v) => if body.len() > 0 && v <= max { Some(v) } else { None },
        None => None,
    }
}

/// The signed 32 bit number a text writes in decimal.
pub open spec fn signed32(s: Seq<char>) -> Option<int> {
    if s.len() > 0 && s[0] == '-' {
        match digits_value(s.skip(1), 10) {
            Some(v) => if s.len() > 1 && v <= 0x8000_0000 { Some(-v) } else { None },
            None => None,
        }
    } else {
        unsigned(s, 10, 0x7fff_ffff)
    }
}

/// The characters of a text.
pub fn chars_of(s: &str) -> (out: Vec<char>)
    ensures
        out@ == s@,
{
    let mut out: Vec<char> = Vec::new();
    for c in it: s.chars()
        invariant
            out@ == s@.take(it.index() as int),
            it.seq() == s@,
    {
        out.push(c);
        assert(out@ =~= s@.take(it.index() + 1));
    }
    assert(out@ =~= s@);
    out
}

/// Whether two texts are the same.
pub fn same_text(a: &str, b: &str) -> (r: bool)
    ensures
        r == (a@ == b@),
{
    let x = a.to_owned();
    let y = b.to_owned();
    x == y
}

/// The character of one digit.
pub fn digit_char(n: u8) -> (c: char)
    requires
        n < 16,
    ensures
        c == digit(n as int),
{
    proof {
        reveal(digit);
    }
    match n {
        0 => '0', 1 => '1', 2 => '2', 3 => '3', 4 => '4', 5 => '5', 6 => '6', 7 => '7',
        8 => '8', 9 => '9', 10 => 'a', 11 => 'b', 12 => 'c', 13 => 'd', 14 => 'e', _ => 'f',
    }
}

/// A character with an ASCII letter put in upper case.
pub fn upper_char(c: char) -> (r: char)
    ensures
        r == upper(c),
{
    if 'a' <= c && c <= 'z' { ((c as u32 - 32) as u8) as char } else { c }
}

/// Writes a number in a base.
pub fn put_number(out: &mut String, n: u64, radix: u64)
    requires
        2 <= radix <= 16,
    ensures
        final(out)@ == old(out)@ + numeral(n as nat, radix as nat),
    decreases n,
{
    let ghost start = out@;
    if n < radix {
        out.push(digit_char(n as u8));
    } else {
        assert(n / radix < n) by (nonlinear_arith)
            requires n >= radix, radix >= 2;
        put_number(out, n / radix, radix);
        assert(0 <= n % radix < radix) by (nonlinear_arith)
            requires radix >= 2;
        out.push(digit_char((n % radix) as u8));
    }
    assert(out@ =~= start + numeral(n as nat, radix as nat));
}

/// Writes a number in decimal.
pub fn put_dec(out: &mut String, n: u64)
    ensures
        final(out)@ == old(out)@ + dec(n as nat),
{
    put_number(out, n, 10);
}

/// Writes a number in lower case hexadecimal, filled up with zeros to a width.
pub fn put_hex(out: &mut String, n: u64, width: usize)
    ensures
        final(out)@ == old(out)@ + zero_pad(hex(n as nat), width as nat),
{
    put_padded(out, n, 16, width);
}

/// Writes a number in a base, filled up with zeros to a width.
pub fn put_padded(out: &mut String, n: u64, radix: u64, width: usize)
    requires
        2 <= radix <= 16,
    ensures
        final(out)@ == old(out)@ + zero_pad(numeral(n as nat, radix as nat), width as nat),
{
    let ghost start = out@;
    let mut digits = String::new();
    put_number(&mut digits, n, radix);
    assert(digits@ =~= numeral(n as nat, radix as nat));
    let have: usize = digits.as_str().unicode_len();
    let mut i: usize = have;
    while i < width
        invariant
            digits@ == numeral(n as nat, radix as nat),
            have == digits@.len(),
            have <= i,
            i <= width || i == have,
            out@ == start + Seq::new((i - have) as nat, |j: int| '0'),
        decreases width - i,
    {
        out.push('0');
        i += 1;
        assert(out@ =~= start + Seq::new((i - have) as nat, |j: int| '0'));
    }
    out.append(digits.as_str());
    assert(out@ =~= start + zero_pad(numeral(n as nat, radix as nat), width as nat));
}

/// Writes a byte as two lower case hexadecimal digits.
pub fn put_hex2(out: &mut String, b: u8)
    ensures
        final(out)@ == old(out)@ + hex2(b),
{
    let ghost start = out@;
    out.push(digit_char(b / 16));
    out.push(digit_char(b % 16));
    assert(out@ =~= start + hex2(b));
}

/// Writes a byte as two upper case hexadecimal digits.
pub fn put_hex2_upper(out: &mut String, b: u8)
    ensures
        final(out)@ == old(out)@ + hex2_upper(b),
{
    let ghost start = out@;
    out.push(upper_char(digit_char(b / 16)));
    out.push(upper_char(digit_char(b % 16)));
    assert(out@ =~= start + hex2_upper(b));
}

/// A byte string in lower case hexadecimal.
pub fn hex_of(data: &[u8]) -> (out: String)
    ensures
        out@ == hex_text(data@),
{
    let mut out = String::new();
    let mut i: usize = 0;
    while i < data.len()
        invariant
            i <= data@.len(),
            out@ == hex_text(data@.take(i as int)),
        decreases data@.len() - i,
    {
        put_hex2(&mut out, data[i]);
        i += 1;
        assert(data@.take(i as int).drop_last() =~= data@.take(i - 1));
    }
    assert(data@.take(i as int) =~= data@);
    out
}

/// Whether a character is white space.
pub fn space(c: char) -> (r: bool)
    ensures
        r == is_space(c),
{
    ('\u{9}' <= c && c <= '\u{d}') || c == ' ' || c == '\u{85}' || c == '\u{a0}' || c == '\u{1680}'
        || ('\u{2000}' <= c && c <= '\u{200a}') || c == '\u{2028}' || c == '\u{2029}'
        || c == '\u{202f}' || c == '\u{205f}' || c == '\u{3000}'
}

/// Where the text starts once the white space in front is gone.
fn lead(s: &Vec<char>, from: usize) -> (i: usize)
    requires
        from <= s@.len(),
    ensures
        from <= i <= s@.len(),
        trim_start(s@.skip(from as int)) == s@.skip(i as int),
        i < s@.len() ==> !is_space(s@[i as int]),
{
    let mut i: usize = from;
    while i < s.len() && space(s[i])
        invariant
            from <= i <= s@.len(),
            trim_start(s@.skip(from as int)) == trim_start(s@.skip(i as int)),
        decreases s@.len() - i,
    {
        assert(s@.skip(i as int).skip(1) =~= s@.skip(i + 1));
        i += 1;
    }
    i
}

/// The text without the white space around it.
pub fn trim_str(s: &str) -> (out: &str)
    ensures
        out@ == trim(s@),
{
    let v = chars_of(s);
    assert(v@.skip(0) =~= v@);
    let from: usize = lead(&v, 0);
    let ghost t = v@.skip(from as int);
    let mut to: usize = v.len();
    assert(t.take(to - from) =~= t);
    while from < to && space(v[to - 1])
        invariant
            from <= to <= v@.len(),
            t == v@.skip(from as int),
            trim_end(t) == trim_end(t.take(to - from)),
        decreases to - from,
    {
        assert(t.take(to - from).drop_last() =~= t.take(to - from - 1));
        assert(t.take(to - from).last() == v@[to - 1]);
        to -= 1;
    }
    proof {
        let rest = t.take(to - from);
        if to > from {
            assert(rest.last() == v@[to - 1]);
        }
        assert(trim_end(rest) == rest);
        assert(v@.subrange(from as int, to as int) =~= rest);
    }
    s.substring_char(from, to)
}

/// A copy of the text without the white space around it.
pub fn trimmed(s: &str) -> (out: String)
    ensures
        out@ == trim(s@),
{
    trim_str(s).to_owned()
}

/// The text without the white space at its end.
pub fn trimmed_end(s: &str) -> (out: String)
    ensures
        out@ == trim_end(s@),
{
    let v = chars_of(s);
    let mut to: usize = v.len();
    assert(v@.take(to as int) =~= v@);
    while 0 < to && space(v[to - 1])
        invariant
            to <= v@.len(),
            trim_end(v@) == trim_end(v@.take(to as int)),
        decreases to,
    {
        assert(v@.take(to as int).drop_last() =~= v@.take(to - 1));
        to -= 1;
    }
    assert(v@.subrange(0, to as int) =~= v@.take(to as int));
    s.substring_char(0, to).to_owned()
}

/// Where a character first occurs at or behind a place, or the length.
fn first_from(s: &Vec<char>, from: usize, c: char) -> (i: usize)
    requires
        from <= s@.len(),
    ensures
        from <= i <= s@.len(),
        i - from == first(s@.skip(from as int), c),
        i < s@.len() ==> s@[i as int] == c,
        forall|j: int| from <= j < i ==> s@[j] != c,
{
    let mut i: usize = from;
    while i < s.len() && s[i] != c
        invariant
            from <= i <= s@.len(),
            first(s@.skip(from as int), c) == i - from + first(s@.skip(i as int), c),
            forall|j: int| from <= j < i ==> s@[j] != c,
        decreases s@.len() - i,
    {
        assert(s@.skip(i as int).skip(1) =~= s@.skip(i + 1));
        i += 1;
    }
    i
}

/// A first occurrence lies inside the text or at its end.
pub proof fn first_bounds(s: Seq<char>, c: char)
    ensures
        first(s, c) <= s.len(),
        first(s, c) < s.len() ==> s[first(s, c) as int] == c,
        forall|j: int| 0 <= j < first(s, c) ==> s[j] != c,
    decreases s.len(),
{
    if s.len() > 0 && s[0] != c {
        first_bounds(s.skip(1), c);
        assert forall|j: int| 0 <= j < first(s, c) implies s[j] != c by {
            if j > 0 {
                assert(s.skip(1)[j - 1] == s[j]);
            }
        }
    }
}

/// Where a character first occurs, if it does.
pub fn find_char(s: &str, c: char) -> (r: Option<usize>)
    ensures
        match r {
            Some(i) => i == first(s@, c) && i < s@.len(),
            None => first(s@, c) == s@.len(),
        },
{
    let v = chars_of(s);
    assert(v@.skip(0) =~= v@);
    let i: usize = first_from(&v, 0, c);
    if i < v.len() { Some(i) } else { None }
}

/// The pieces between the occurrences of a character.
pub fn pieces(s: &str, c: char) -> (out: Vec<String>)
    ensures
        views(out@) == split_on(s@, c),
{
    let v = chars_of(s);
    let mut out: Vec<String> = Vec::new();
    let mut from: usize = 0;
    assert(v@.skip(0) =~= v@);
    assert(views(out@) =~= Seq::<Seq<char>>::empty());
    assert(split_on(s@, c) =~= views(out@) + split_on(v@.skip(0), c));
    loop
        invariant
            from <= v@.len(),
            v@ == s@,
            split_on(s@, c) == views(out@) + split_on(v@.skip(from as int), c),
        decreases v@.len() - from,
    {
        let i: usize = first_from(&v, from, c);
        let ghost before = out@;
        let ghost rest = v@.skip(from as int);
        out.push(s.substring_char(from, i).to_owned());
        assert(v@.subrange(from as int, i as int) =~= rest.take(i - from));
        assert(views(out@) =~= views(before).push(rest.take(i - from)));
        if i >= v.len() {
            assert(rest.take(i - from) =~= rest);
            assert(views(out@) =~= split_on(s@, c));
            return out;
        }
        assert(rest.skip(i - from + 1) =~= v@.skip(i + 1));
        assert(split_on(s@, c) =~= views(out@) + split_on(v@.skip(i + 1), c));
        from = i + 1;
    }
}

/// The words of a text.
pub fn words_of(s: &str) -> (out: Vec<String>)
    ensures
        views(out@) == words(s@),
{
    let v = chars_of(s);
    let mut out: Vec<String> = Vec::new();
    let mut from: usize = 0;
    assert(v@.skip(0) =~= v@);
    assert(words(s@) =~= views(out@) + words(v@.skip(0)));
    loop
        invariant
            from <= v@.len(),
            v@ == s@,
            words(s@) == views(out@) + words(v@.skip(from as int)),
        decreases v@.len() - from,
    {
        let at: usize = lead(&v, from);
        if at >= v.len() {
            assert(words(v@.skip(from as int)) =~= Seq::<Seq<char>>::empty());
            assert(views(out@) =~= words(s@));
            return out;
        }
        let ghost t = v@.skip(at as int);
        let mut end: usize = at;
        while end < v.len() && !space(v[end])
            invariant
                at <= end <= v@.len(),
                word_len(v@.skip(at as int)) == end - at + word_len(v@.skip(end as int)),
            decreases v@.len() - end,
        {
            assert(v@.skip(end as int).skip(1) =~= v@.skip(end + 1));
            end += 1;
        }
        assert(word_len(t) == end - at);
        assert(t[0] == v@[at as int]);
        assert(word_len(t) > 0);
        let ghost before = out@;
        out.push(s.substring_char(at, end).to_owned());
        assert(v@.subrange(at as int, end as int) =~= t.take(end - at));
        assert(views(out@) =~= views(before).push(t.take(end - at)));
        assert(t.skip(end - at) =~= v@.skip(end as int));
        assert(words(s@) =~= views(out@) + words(v@.skip(end as int)));
        from = end;
    }
}

/// The lines of a text.
pub fn lines_of(s: &str) -> (out: Vec<String>)
    ensures
        views(out@) == lines(s@),
{
    let v = chars_of(s);
    let mut out: Vec<String> = Vec::new();
    let mut from: usize = 0;
    assert(v@.skip(0) =~= v@);
    assert(lines(s@) =~= views(out@) + lines(v@.skip(0)));
    while from < v.len()
        invariant
            from <= v@.len(),
            v@ == s@,
            lines(s@) == views(out@) + lines(v@.skip(from as int)),
        decreases v@.len() - from,
    {
        let i: usize = first_from(&v, from, '\n');
        let ghost before = out@;
        let ghost rest = v@.skip(from as int);
        if i >= v.len() {
            out.push(s.substring_char(from, i).to_owned());
            assert(v@.subrange(from as int, i as int) =~= rest);
            assert(views(out@) =~= views(before).push(rest));
            assert(v@.skip(i as int) =~= Seq::<char>::empty());
            assert(lines(s@) =~= views(out@) + lines(v@.skip(i as int)));
            from = i;
        } else {
            let end: usize = if from < i && v[i - 1] == '\r' { i - 1 } else { i };
            out.push(s.substring_char(from, end).to_owned());
            assert(v@.subrange(from as int, end as int) =~= bare_line(rest.take(i - from)));
            assert(views(out@) =~= views(before).push(bare_line(rest.take(i - from))));
            assert(rest.skip(i - from + 1) =~= v@.skip(i + 1));
            assert(lines(s@) =~= views(out@) + lines(v@.skip(i + 1)));
            from = i + 1;
        }
    }
    assert(lines(v@.skip(from as int)) =~= Seq::<Seq<char>>::empty());
    assert(views(out@) =~= lines(s@));
    out
}

/// Whether one run of characters stands in another at a place.
fn at(s: &Vec<char>, p: &Vec<char>, i: usize) -> (r: bool)
    ensures
        r == stands_at(s@, p@, i as int),
{
    if p.len() > s.len() || i > s.len() - p.len() {
        return false;
    }
    let mut j: usize = 0;
    while j < p.len()
        invariant
            i + p@.len() <= s@.len(),
            s@.len() == s.len(),
            j <= p@.len(),
            forall|k: int| 0 <= k < j ==> s@[i + k] == p@[k],
        decreases p@.len() - j,
    {
        if s[i + j] != p[j] {
            assert(s@.subrange(i as int, i + p@.len())[j as int] != p@[j as int]);
            return false;
        }
        j += 1;
    }
    assert(s@.subrange(i as int, i + p@.len()) =~= p@);
    true
}

/// Whether a text begins with another.
pub fn begins(s: &str, p: &str) -> (r: bool)
    ensures
        r == starts_with(s@, p@),
{
    let v = chars_of(s);
    let w = chars_of(p);
    proof {
        if p@.len() <= s@.len() {
            assert(s@.subrange(0, p@.len() as int) =~= s@.take(p@.len() as int));
        }
    }
    at(&v, &w, 0)
}

/// What follows a prefix, where the text begins with it.
pub fn after_prefix(s: &str, p: &str) -> (r: Option<String>)
    ensures
        match r {
            Some(rest) => starts_with(s@, p@) && rest@ == s@.skip(p@.len() as int),
            None => !starts_with(s@, p@),
        },
{
    if begins(s, p) {
        let n: usize = p.unicode_len();
        let len: usize = s.unicode_len();
        assert(s@.subrange(n as int, len as int) =~= s@.skip(n as int));
        Some(s.substring_char(n, len).to_owned())
    } else {
        None
    }
}

/// Where a text first occurs in another, counted in characters.
pub fn find(s: &str, p: &str) -> (r: Option<usize>)
    ensures
        match r {
            Some(i) => place_of(s@, p@, 0) == Some(i as int) && stands_at(s@, p@, i as int)
                && forall|j: int| 0 <= j < i ==> !stands_at(s@, p@, j),
            None => place_of(s@, p@, 0) is None && !contains(s@, p@),
        },
{
    let v = chars_of(s);
    let w = chars_of(p);
    let mut i: usize = 0;
    while i < v.len()
        invariant
            i <= v@.len(),
            v@ == s@,
            w@ == p@,
            place_of(s@, p@, 0) == place_of(s@, p@, i as int),
            forall|j: int| 0 <= j < i ==> !stands_at(s@, p@, j),
        decreases v@.len() - i,
    {
        if at(&v, &w, i) {
            return Some(i);
        }
        if w.len() > v.len() - i {
            assert forall|j: int| !stands_at(s@, p@, j) by {}
            return None;
        }
        i += 1;
    }
    if at(&v, &w, i) {
        return Some(i);
    }
    None
}

/// Whether a text occurs in another.
pub fn holds(s: &str, p: &str) -> (r: bool)
    ensures
        r == contains(s@, p@),
{
    match find(s, p) {
        Some(_) => true,
        None => false,
    }
}

/// Texts one after the other, with a separator between them.
pub fn joined(parts: &Vec<String>, sep: &str) -> (out: String)
    ensures
        out@ == join(views(parts@), sep@),
{
    let mut out = String::new();
    let mut i: usize = 0;
    while i < parts.len()
        invariant
            i <= parts@.len(),
            out@ == join(views(parts@).take(i as int), sep@),
        decreases parts@.len() - i,
    {
        let ghost before = views(parts@).take(i as int);
        if i > 0 {
            out.append(sep);
        }
        out.append(parts[i].as_str());
        i += 1;
        let ghost now = views(parts@).take(i as int);
        assert(now.drop_last() =~= before);
        assert(now.last() == parts@[i - 1]@);
        assert(out@ =~= join(now, sep@));
    }
    assert(views(parts@).take(i as int) =~= views(parts@));
    out
}

/// A longer run of digits has a value that is not smaller, and none where its front has none.
proof fn digits_grow(s: Seq<char>, k: int, radix: int)
    requires
        0 <= k <= s.len(),
        radix >= 2,
    ensures
        digits_value(s, radix) matches Some(v) ==> v >= 0 && (digits_value(s.take(k), radix) matches Some(w) && 0 <= w <= v),
    decreases s.len() - k,
{
    digits_nonneg(s, radix);
    if k < s.len() {
        digits_grow(s.drop_last(), k, radix);
        assert(s.drop_last().take(k) =~= s.take(k));
        if let Some(v) = digits_value(s, radix) {
            let u = digits_value(s.drop_last(), radix).unwrap();
            assert(u * radix >= u) by (nonlinear_arith)
                requires u >= 0, radix >= 2;
        }
    } else {
        assert(s.take(k) =~= s);
    }
}

proof fn digits_nonneg(s: Seq<char>, radix: int)
    requires
        radix >= 2,
    ensures
        digits_value(s, radix) matches Some(v) ==> v >= 0,
    decreases s.len(),
{
    if s.len() > 0 {
        digits_nonneg(s.drop_last(), radix);
        if let Some(v) = digits_value(s, radix) {
            let u = digits_value(s.drop_last(), radix).unwrap();
            assert(u * radix >= 0) by (nonlinear_arith)
                requires u >= 0, radix >= 2;
        }
    }
}

/// A number that is read is not negative and not over the largest value.
pub proof fn unsigned_in_range(s: Seq<char>, radix: int, max: int)
    requires
        radix >= 2,
    ensures
        unsigned(s, radix, max) matches Some(v) ==> 0 <= v <= max,
{
    digits_nonneg(if s.len() > 0 && s[0] == '+' { s.skip(1) } else { s }, radix);
}

/// The value of one digit.
pub fn digit_of(c: char) -> (r: Option<u8>)
    ensures
        match r {
            Some(d) => digit_value(c) == Some(d as int),
            None => digit_value(c) is None,
        },
{
    if '0' <= c && c <= '9' {
        Some((c as u32 - 48) as u8)
    } else if 'a' <= c && c <= 'f' {
        Some((c as u32 - 87) as u8)
    } else if 'A' <= c && c <= 'F' {
        Some((c as u32 - 55) as u8)
    } else {
        None
    }
}

/// The value of the digits from a place on, where it is at most `max`.
fn read_digits(v: &Vec<char>, from: usize, radix: u64, max: u64) -> (r: Option<u64>)
    requires
        from <= v@.len(),
        2 <= radix <= 16,
    ensures
        match r {
            Some(n) => digits_value(v@.skip(from as int), radix as int) == Some(n as int) && n <= max,
            None => digits_value(v@.skip(from as int), radix as int) matches Some(n) ==> n > max,
        },
{
    let ghost s = v@.skip(from as int);
    let mut n: u64 = 0;
    let mut i: usize = from;
    while i < v.len()
        invariant
            from <= i <= v@.len(),
            2 <= radix <= 16,
            n <= max,
            s == v@.skip(from as int),
            digits_value(s.take(i - from), radix as int) == Some(n as int),
        decreases v@.len() - i,
    {
        assert(s.take(i - from + 1).drop_last() =~= s.take(i - from));
        assert(s.take(i - from + 1).last() == v@[i as int]);
        proof {
            digits_grow(s, i - from + 1, radix as int);
        }
        let d: u64 = match digit_of(v[i]) {
            Some(d) => d as u64,
            None => {
                return None;
            },
        };
        if d >= radix {
            return None;
        }
        assert(0 <= n * radix <= u64::MAX * 16) by (nonlinear_arith)
            requires 0 <= n <= u64::MAX, 2 <= radix <= 16;
        let wide: u128 = n as u128 * radix as u128 + d as u128;
        if wide > max as u128 {
            return None;
        }
        n = wide as u64;
        i += 1;
    }
    assert(s.take(i - from) =~= s);
    Some(n)
}

/// The number a text writes, up to a largest value.
pub fn read_unsigned(s: &str, radix: u64, max: u64) -> (r: Option<u64>)
    requires
        2 <= radix <= 16,
    ensures
        match r {
            Some(n) => unsigned(s@, radix as int, max as int) == Some(n as int),
            None => unsigned(s@, radix as int, max as int) is None,
        },
{
    let v = chars_of(s);
    let from: usize = if v.len() > 0 && v[0] == '+' { 1 } else { 0 };
    assert(v@.skip(0) =~= v@);
    if from >= v.len() {
        return None;
    }
    read_digits(&v, from, radix, max)
}

/// The signed 32 bit number a text writes in decimal.
pub fn read_signed32(s: &str) -> (r: Option<i32>)
    ensures
        match r {
            Some(n) => signed32(s@) == Some(n as int),
            None => signed32(s@) is None,
        },
{
    let v = chars_of(s);
    if v.len() > 0 && v[0] == '-' {
        if v.len() == 1 {
            return None;
        }
        return match read_digits(&v, 1, 10, 0x8000_0000) {
            Some(n) => Some((0 - n as i64) as i32),
            None => None,
        };
    }
    match read_unsigned(s, 10, 0x7fff_ffff) {
        Some(n) => Some(n as i32),
        None => None,
    }
}

/// Six address bytes as text, the last one first, in upper case with colons between.
pub open spec fn mac_text(b: Seq<u8>) -> Seq<char> {
    hex2_upper(b[5]) + ":"@ + hex2_upper(b[4]) + ":"@ + hex2_upper(b[3]) + ":"@ + hex2_upper(b[2]) + ":"@
        + hex2_upper(b[1]) + ":"@ + hex2_upper(b[0])
}

/// A controller address as text.
pub fn mac(bdaddr: &[u8; 6]) -> (out: String)
    ensures
        out@ == mac_text(bdaddr@),
{
    let mut out = String::new();
    put_hex2_upper(&mut out, bdaddr[5]);
    assert(out@ =~= hex2_upper(bdaddr@[5]));
    out.append(":");
    put_hex2_upper(&mut out, bdaddr[4]);
    out.append(":");
    put_hex2_upper(&mut out, bdaddr[3]);
    out.append(":");
    put_hex2_upper(&mut out, bdaddr[2]);
    out.append(":");
    put_hex2_upper(&mut out, bdaddr[1]);
    out.append(":");
    put_hex2_upper(&mut out, bdaddr[0]);
    out
}

/// The text without any number of one prefix.
pub fn strip_all(s: &str, p: &str) -> (out: String)
    ensures
        out@ == stripped(s@, p@),
{
    let mut rest = s.to_owned();
    if p.is_empty() {
        return rest;
    }
    loop
        invariant
            p@.len() > 0,
            stripped(s@, p@) == stripped(rest@, p@),
        decreases rest@.len(),
    {
        match after_prefix(rest.as_str(), p) {
            Some(next) => {
                rest = next;
            },
            None => {
                return rest;
            },
        }
    }
}

/// The text without any of one character at its front and at its end.
pub fn unquote(s: &str, c: char) -> (out: String)
    ensures
        out@ == unquoted(s@, c),
{
    let v = chars_of(s);
    let mut from: usize = 0;
    let mut to: usize = v.len();
    assert(v@.subrange(0, v@.len() as int) =~= v@);
    while from < to && v[from] == c
        invariant
            from <= to == v@.len(),
            unquoted(v@, c) == unquoted(v@.subrange(from as int, to as int), c),
        decreases to - from,
    {
        assert(v@.subrange(from as int, to as int).skip(1) =~= v@.subrange(from + 1, to as int));
        from += 1;
    }
    while from < to && v[to - 1] == c
        invariant
            from <= to <= v@.len(),
            from < to ==> v@[from as int] != c,
            unquoted(v@, c) == unquoted(v@.subrange(from as int, to as int), c),
        decreases to - from,
    {
        let ghost t = v@.subrange(from as int, to as int);
        assert(t[0] == v@[from as int]);
        assert(t.last() == v@[to - 1]);
        assert(t.drop_last() =~= v@.subrange(from as int, to - 1));
        to -= 1;
    }
    proof {
        let t = v@.subrange(from as int, to as int);
        if from < to {
            assert(t[0] == v@[from as int]);
            assert(t.last() == v@[to - 1]);
        }
        assert(unquoted(t, c) == t);
    }
    s.substring_char(from, to).to_owned()
}

/// Whether a text ends with another.
pub open spec fn ends_with(s: Seq<char>, p: Seq<char>) -> bool {
    p.len() <= s.len() && s.skip(s.len() - p.len()) == p
}

/// Whether a text ends with another.
pub fn ends(s: &str, p: &str) -> (r: bool)
    ensures
        r == ends_with(s@, p@),
{
    let v = chars_of(s);
    let w = chars_of(p);
    if w.len() > v.len() {
        return false;
    }
    let from: usize = v.len() - w.len();
    assert(s@.subrange(from as int, from + p@.len()) =~= s@.skip(from as int));
    at(&v, &w, from)
}

/// A text with every occurrence of one character replaced by another text.
pub open spec fn replaced(s: Seq<char>, c: char, with: Seq<char>) -> Seq<char>
    decreases s.len(),
{
    if s.len() == 0 {
        Seq::empty()
    } else if s.last() == c {
        replaced(s.drop_last(), c, with) + with
    } else {
        replaced(s.drop_last(), c, with).push(s.last())
    }
}

/// The text with every occurrence of one character replaced by another text.
pub fn replace(s: &str, c: char, with: &str) -> (out: String)
    ensures
        out@ == replaced(s@, c, with@),
{
    let v = chars_of(s);
    let mut out = String::new();
    let mut i: usize = 0;
    assert(out@ =~= replaced(v@.take(0), c, with@));
    while i < v.len()
        invariant
            i <= v@.len(),
            out@ == replaced(v@.take(i as int), c, with@),
        decreases v@.len() - i,
    {
        assert(v@.take(i + 1).drop_last() =~= v@.take(i as int));
        if v[i] == c {
            out.append(with);
        } else {
            out.push(v[i]);
        }
        i += 1;
    }
    assert(v@.take(i as int) =~= v@);
    out
}

/// As many spaces as a text falls short of a width.
pub open spec fn gap(s: Seq<char>, width: nat) -> Seq<char> {
    Seq::new(if s.len() < width { (width - s.len()) as nat } else { 0 }, |i: int| ' ')
}

/// Writes the spaces a length falls short of a width.
fn put_gap(out: &mut String, have: usize, width: usize)
    ensures
        final(out)@ == old(out)@ + Seq::new(if have < width { (width - have) as nat } else { 0 }, |i: int| ' '),
{
    let ghost start = out@;
    let mut i: usize = have;
    assert(out@ =~= start + Seq::new(0, |j: int| ' '));
    while i < width
        invariant
            have <= i,
            i <= width || i == have,
            out@ == start + Seq::new((i - have) as nat, |j: int| ' '),
        decreases width - i,
    {
        out.push(' ');
        i += 1;
        assert(out@ =~= start + Seq::new((i - have) as nat, |j: int| ' '));
    }
    assert(out@ =~= start + Seq::new(if have < width { (width - have) as nat } else { 0 }, |j: int| ' '));
}

/// Writes a text set to the right of a width.
pub fn put_right(out: &mut String, s: &str, width: usize)
    ensures
        final(out)@ == old(out)@ + gap(s@, width as nat) + s@,
{
    let n: usize = s.unicode_len();
    put_gap(out, n, width);
    out.append(s);
}

/// Writes a text set to the left of a width.
pub fn put_left(out: &mut String, s: &str, width: usize)
    ensures
        final(out)@ == old(out)@ + s@ + gap(s@, width as nat),
{
    out.append(s);
    let n: usize = s.unicode_len();
    put_gap(out, n, width);
}

/// A number in decimal.
pub fn decimal(n: u64) -> (out: String)
    ensures
        out@ == dec(n as nat),
{
    let mut out = String::new();
    put_dec(&mut out, n);
    assert(out@ =~= dec(n as nat));
    out
}

/// A digit is read back, in either case, and is no white space and no separator.
pub proof fn digit_reads(n: int)
    requires
        0 <= n < 16,
    ensures
        digit_value(digit(n)) == Some(n),
        digit_value(upper(digit(n))) == Some(n),
        !is_space(digit(n)),
        !is_space(upper(digit(n))),
        digit(n) != ':' && digit(n) != '\n' && digit(n) != '+' && digit(n) != '\r',
        upper(digit(n)) != ':' && upper(digit(n)) != '\n' && upper(digit(n)) != '+',
{
    reveal(digit);
}

/// Each byte of a text in hexadecimal stands at its place.
pub proof fn hex_text_at(data: Seq<u8>, i: int)
    requires
        0 <= i < data.len(),
    ensures
        hex_text(data).len() == 2 * data.len(),
        hex_text(data).subrange(2 * i, 2 * i + 2) == hex2(data[i]),
    decreases data.len(),
{
    let front = data.drop_last();
    hex_text_len(front);
    if i == data.len() - 1 {
        assert(hex_text(data).subrange(2 * i, 2 * i + 2) =~= hex2(data.last()));
    } else {
        hex_text_at(front, i);
        assert(front[i] == data[i]);
        assert(hex_text(data).subrange(2 * i, 2 * i + 2) =~= hex_text(front).subrange(2 * i, 2 * i + 2));
    }
}

/// Hexadecimal takes two characters a byte.
pub proof fn hex_text_len(data: Seq<u8>)
    ensures
        hex_text(data).len() == 2 * data.len(),
    decreases data.len(),
{
    if data.len() > 0 {
        hex_text_len(data.drop_last());
    }
}

/// A text in hexadecimal holds no white space and no line break.
pub proof fn hex_text_plain(data: Seq<u8>, k: int)
    requires
        0 <= k < hex_text(data).len(),
    ensures
        !is_space(hex_text(data)[k]),
        hex_text(data)[k] != '\n',
        hex_text(data)[k] != '\r',
{
    hex_text_len(data);
    let i = k / 2;
    hex_text_at(data, i);
    let two = hex_text(data).subrange(2 * i, 2 * i + 2);
    assert(two[k - 2 * i] == hex_text(data)[k]);
    digit_reads(data[i] as int / 16);
    digit_reads(data[i] as int % 16);
}

/// A text without white space at either end is not changed by trimming.
pub proof fn untouched(s: Seq<char>)
    requires
        s.len() > 0,
        !is_space(s[0]),
        !is_space(s.last()),
    ensures
        trim(s) == s,
{
}

/// Where a character first occurs, from what is known of the places in front.
pub proof fn first_at(s: Seq<char>, c: char, k: int)
    requires
        0 <= k <= s.len(),
        forall|i: int| 0 <= i < k ==> s[i] != c,
        k < s.len() ==> s[k] == c,
    ensures
        first(s, c) == k,
{
    first_bounds(s, c);
    let f = first(s, c) as int;
    if f < k {
        assert(s[f] == c);
    }
    if f > k {
        assert(s[k] != c);
    }
}

/// What follows the last occurrence of a character.
pub fn behind_last(s: &str, c: char) -> (out: &str)
    ensures
        out@ == after_last(s@, c),
{
    let v = chars_of(s);
    let n: usize = v.len();
    let mut from: usize = 0;
    assert(v@.skip(0) =~= v@);
    loop
        invariant
            from <= n == v@.len(),
            v@ == s@,
            after_last(s@, c) == after_last(v@.skip(from as int), c),
        decreases n - from,
    {
        let i: usize = first_from(&v, from, c);
        if i >= n {
            assert(s@.subrange(from as int, n as int) =~= v@.skip(from as int));
            return s.substring_char(from, n);
        }
        assert(v@.skip(from as int).skip(i - from + 1) =~= v@.skip(i + 1));
        from = i + 1;
    }
}

/// A number that was written is read back in the same base, and is written without a zero in front.
pub proof fn a_number_reads_back(n: nat, radix: nat)
    requires
        2 <= radix <= 16,
    ensures
        numeral(n, radix).len() > 0,
        digits_value(numeral(n, radix), radix as int) == Some(n as int),
        n > 0 ==> numeral(n, radix)[0] != '0',
        n == 0 ==> numeral(n, radix) == seq!['0'],
        numeral(n, radix)[0] != '+' && numeral(n, radix)[0] != '-',
        forall|max: int| n <= max ==> #[trigger] unsigned(numeral(n, radix), radix as int, max) == Some(n as int),
        forall|max: int| n > max ==> #[trigger] unsigned(numeral(n, radix), radix as int, max) is None,
    decreases n,
{
    reveal(digit);
    let t = numeral(n, radix);
    if n < radix {
        digit_reads(n as int);
        assert(t.drop_last() =~= Seq::<char>::empty());
        assert(digits_value(t.drop_last(), radix as int) == Some(0int));
        assert(t.last() == digit(n as int));
        assert(0int * (radix as int) == 0);
    } else {
        assert(0 < n / radix < n) by (nonlinear_arith)
            requires n >= radix, radix >= 2;
        assert(0 <= n % radix < radix) by (nonlinear_arith)
            requires radix >= 2;
        assert((n / radix) * radix + n % radix == n) by (nonlinear_arith)
            requires radix >= 2;
        a_number_reads_back((n / radix) as nat, radix);
        digit_reads((n % radix) as int);
        assert(t.drop_last() =~= numeral((n / radix) as nat, radix));
        assert(t.last() == digit((n % radix) as int));
        assert(digits_value(t, radix as int) == Some(((n / radix) as int) * (radix as int) + (n % radix) as int));
        assert(t[0] == numeral((n / radix) as nat, radix)[0]);
    }
}

/// Trimming takes white space off both ends and nothing else: what is left is one run of the text,
/// all in front of it and behind it is white space, and it neither begins nor ends with any.
pub proof fn trimming_takes_white_space_alone(s: Seq<char>)
    ensures
        exists|i: int, j: int| 0 <= i <= j <= s.len() && trim(s) == #[trigger] s.subrange(i, j)
            && (forall|k: int| 0 <= k < i || j <= k < s.len() ==> is_space(#[trigger] s[k])),
        trim(s).len() > 0 ==> !is_space(trim(s)[0]) && !is_space(trim(s).last()),
        trim_end(s).len() > 0 ==> !is_space(trim_end(s).last()),
        trim_end(s) == s.take(trim_end(s).len() as int),
        forall|k: int| trim_end(s).len() <= k < s.len() ==> is_space(#[trigger] s[k]),
{
    start_trimmed(s);
    end_trimmed(s);
    let t = trim_start(s);
    end_trimmed(t);
    let i = (s.len() - t.len()) as int;
    let j = i + trim(s).len();
    assert(trim(s) =~= s.subrange(i, j));
    assert forall|k: int| j <= k < s.len() implies is_space(#[trigger] s[k]) by {
        assert(s[k] == t[k - i]);
    }
    if trim(s).len() > 0 {
        assert(trim(s)[0] == t[0]);
    }
}

proof fn start_trimmed(s: Seq<char>)
    ensures
        trim_start(s).len() <= s.len(),
        trim_start(s) == s.skip(s.len() - trim_start(s).len()),
        trim_start(s).len() > 0 ==> !is_space(trim_start(s)[0]),
        forall|k: int| 0 <= k < s.len() - trim_start(s).len() ==> is_space(#[trigger] s[k]),
    decreases s.len(),
{
    if s.len() > 0 && is_space(s[0]) {
        start_trimmed(s.skip(1));
        let n = trim_start(s).len();
        assert(trim_start(s) =~= s.skip(s.len() - n));
        assert forall|k: int| 0 <= k < s.len() - n implies is_space(#[trigger] s[k]) by {
            if k > 0 {
                assert(s[k] == s.skip(1)[k - 1]);
            }
        }
    } else {
        assert(s.skip(0) =~= s);
    }
}

proof fn end_trimmed(s: Seq<char>)
    ensures
        trim_end(s).len() <= s.len(),
        trim_end(s) == s.take(trim_end(s).len() as int),
        trim_end(s).len() > 0 ==> !is_space(trim_end(s).last()),
        forall|k: int| trim_end(s).len() <= k < s.len() ==> is_space(#[trigger] s[k]),
    decreases s.len(),
{
    if s.len() > 0 && is_space(s.last()) {
        end_trimmed(s.drop_last());
        let n = trim_end(s).len();
        assert(trim_end(s) =~= s.take(n as int));
        assert forall|k: int| n <= k < s.len() implies is_space(#[trigger] s[k]) by {
            if k < s.len() - 1 {
                assert(s[k] == s.drop_last()[k]);
            }
        }
    } else {
        assert(s.take(s.len() as int) =~= s);
    }
}

/// Pieces put together again with their separator give the text they came from, and none of them
/// holds it.
pub proof fn pieces_make_the_text(s: Seq<char>, c: char)
    ensures
        split_on(s, c).len() > 0,
        join(split_on(s, c), seq![c]) == s,
        forall|k: int| 0 <= k < split_on(s, c).len() ==> !(#[trigger] split_on(s, c)[k]).contains(c),
    decreases s.len(),
{
    first_bounds(s, c);
    let i = first(s, c) as int;
    let p = split_on(s, c);
    if i < s.len() {
        let tail = s.skip(i + 1);
        let q = split_on(tail, c);
        pieces_make_the_text(tail, c);
        assert(p == seq![s.take(i)] + q);
        joined_behind(s.take(i), q, seq![c]);
        assert(s =~= s.take(i) + seq![c] + tail);
        assert forall|k: int| 0 <= k < p.len() implies !(#[trigger] p[k]).contains(c) by {
            if k > 0 {
                assert(p[k] == q[k - 1]);
            }
        }
    }
}

/// Texts that are put together begin with the first, and behind it and the separator come the others.
pub proof fn joined_behind(a: Seq<char>, more: Seq<Seq<char>>, sep: Seq<char>)
    ensures
        join(seq![a], sep) == a,
        more.len() > 0 ==> join(seq![a] + more, sep) == a + sep + join(more, sep),
    decreases more.len(),
{
    if more.len() > 0 {
        let all = seq![a] + more;
        assert(all.drop_last() =~= seq![a] + more.drop_last());
        assert(all.last() == more.last());
        assert(join(all, sep) == join(all.drop_last(), sep) + sep + all.last());
        if more.len() == 1 {
            assert(all.drop_last() =~= seq![a]);
            assert(join(seq![a], sep) == a);
            assert(join(more, sep) == more[0]);
        } else {
            joined_behind(a, more.drop_last(), sep);
            assert(join(more, sep) == join(more.drop_last(), sep) + sep + more.last());
            assert(a + sep + join(more.drop_last(), sep) + sep + more.last()
                =~= a + sep + (join(more.drop_last(), sep) + sep + more.last()));
        }
    }
}

/// White space in front of words makes no difference, and a word goes up to the white space behind it
/// or to the end.
pub proof fn words_stand_between_white_space(w: Seq<char>, c: char, rest: Seq<char>)
    requires
        is_space(c),
        forall|k: int| 0 <= k < w.len() ==> !is_space(#[trigger] w[k]),
    ensures
        words(seq![c] + rest) == words(rest),
        w.len() > 0 ==> words(w + seq![c] + rest) == seq![w] + words(rest),
        w.len() > 0 ==> words(w) == seq![w],
        words(Seq::<char>::empty()) == Seq::<Seq<char>>::empty(),
{
    let e = Seq::<char>::empty();
    assert((seq![c] + rest).skip(1) =~= rest);
    start_trimmed(rest);
    spaced(c, rest);
    if w.len() > 0 {
        let s = w + (seq![c] + rest);
        assert(s =~= w + seq![c] + rest);
        long_word(w, seq![c] + rest);
        assert(s[0] == w[0]);
        assert(s.take(w.len() as int) =~= w);
        assert(s.skip(w.len() as int) =~= seq![c] + rest);
        long_word(w, e);
        assert(w + e =~= w);
        assert(w.take(w.len() as int) =~= w);
        assert(w.skip(w.len() as int) =~= e);
        assert(trim_start(w) == w);
        assert(words(w) == seq![w] + words(e));
        assert(seq![w] + words(e) =~= seq![w]);
    }
}

proof fn spaced(c: char, rest: Seq<char>)
    requires
        is_space(c),
    ensures
        words(seq![c] + rest) == words(rest),
{
    let s = seq![c] + rest;
    assert(s.skip(1) =~= rest);
    assert(trim_start(s) == trim_start(rest));
    start_trimmed(rest);
}

proof fn long_word(w: Seq<char>, rest: Seq<char>)
    requires
        forall|k: int| 0 <= k < w.len() ==> !is_space(#[trigger] w[k]),
        rest.len() > 0 ==> is_space(rest[0]),
    ensures
        word_len(w + rest) == w.len(),
    decreases w.len(),
{
    let s = w + rest;
    if w.len() > 0 {
        assert(s.skip(1) =~= w.skip(1) + rest);
        assert(s[0] == w[0]);
        long_word(w.skip(1), rest);
    } else {
        assert(s =~= rest);
    }
}

/// A line goes up to its line break, a carriage return in front of that not counted, and what follows
/// is read the same way. A text without a line break is one line.
pub proof fn lines_stand_between_breaks(line: Seq<char>, rest: Seq<char>)
    requires
        !line.contains('\n'),
    ensures
        lines(line + seq!['\n'] + rest) == seq![if line.len() > 0 && line.last() == '\r' {
            line.take(line.len() - 1)
        } else {
            line
        }] + lines(rest),
        line.len() > 0 ==> lines(line) == seq![line],
        lines(Seq::<char>::empty()).len() == 0,
{
    let s = line + seq!['\n'] + rest;
    let n = line.len() as int;
    assert forall|i: int| 0 <= i < n implies s[i] != '\n' by {
        assert(s[i] == line[i]);
        assert(line.contains(line[i]));
    }
    assert(s[n] == '\n');
    first_at(s, '\n', n);
    assert(s.take(n) =~= line);
    assert(s.skip(n + 1) =~= rest);
    if line.len() > 0 && line.last() == '\r' {
        assert(line.drop_last() =~= line.take(n - 1));
    }
    assert forall|i: int| 0 <= i < n implies line[i] != '\n' by {
        assert(line.contains(line[i]));
    }
    first_at(line, '\n', n);
}

/// A prefix is taken off as often as it stands there, and a text that does not begin with it is left as
/// it is.
pub proof fn prefixes_are_taken_off(p: Seq<char>, s: Seq<char>)
    requires
        p.len() > 0,
    ensures
        stripped(p + s, p) == stripped(s, p),
        !starts_with(s, p) ==> stripped(s, p) == s,
        !starts_with(stripped(s, p), p),
    decreases s.len(),
{
    assert((p + s).take(p.len() as int) =~= p);
    assert((p + s).skip(p.len() as int) =~= s);
    if starts_with(s, p) {
        prefixes_are_taken_off(p, s.skip(p.len() as int));
    }
}

/// One character is taken off both ends as often as it stands there, and nothing else is.
pub proof fn unquoting_takes_one_character_alone(s: Seq<char>, c: char)
    ensures
        exists|i: int, j: int| 0 <= i <= j <= s.len() && unquoted(s, c) == #[trigger] s.subrange(i, j)
            && (forall|k: int| 0 <= k < i || j <= k < s.len() ==> #[trigger] s[k] == c),
        unquoted(s, c).len() > 0 ==> unquoted(s, c)[0] != c && unquoted(s, c).last() != c,
{
    let (i, j) = unquoted_run(s, c);
    assert(unquoted(s, c) == s.subrange(i, j));
}

proof fn unquoted_run(s: Seq<char>, c: char) -> (r: (int, int))
    ensures
        0 <= r.0 <= r.1 <= s.len(),
        unquoted(s, c) == s.subrange(r.0, r.1),
        forall|k: int| 0 <= k < r.0 || r.1 <= k < s.len() ==> #[trigger] s[k] == c,
        unquoted(s, c).len() > 0 ==> unquoted(s, c)[0] != c && unquoted(s, c).last() != c,
    decreases s.len(),
{
    if s.len() > 0 && s[0] == c {
        let t = s.skip(1);
        let (i, j) = unquoted_run(t, c);
        assert(t.subrange(i, j) =~= s.subrange(i + 1, j + 1));
        assert forall|k: int| 0 <= k < i + 1 || j + 1 <= k < s.len() implies #[trigger] s[k] == c by {
            if k > 0 {
                assert(s[k] == t[k - 1]);
            }
        }
        (i + 1, j + 1)
    } else if s.len() > 0 && s.last() == c {
        let t = s.drop_last();
        let (i, j) = unquoted_run(t, c);
        assert(t.subrange(i, j) =~= s.subrange(i, j));
        assert forall|k: int| 0 <= k < i || j <= k < s.len() implies #[trigger] s[k] == c by {
            if k < t.len() {
                assert(s[k] == t[k]);
            }
        }
        (i, j)
    } else {
        assert(s.subrange(0, s.len() as int) =~= s);
        (0, s.len() as int)
    }
}

/// A text is found at the first place where it stands, from a place on, and nowhere only where it
/// stands at none.
pub proof fn the_first_place_is_found(s: Seq<char>, p: Seq<char>, from: int)
    requires
        from >= 0,
    ensures
        match place_of(s, p, from) {
            Some(i) => from <= i && i + p.len() <= s.len() && s.subrange(i, i + p.len()) == p
                && (forall|j: int| from <= j < i ==> !#[trigger] stands_at(s, p, j)),
            None => forall|j: int| from <= j ==> !#[trigger] stands_at(s, p, j),
        },
    decreases s.len() - from,
{
    if from + p.len() <= s.len() && !stands_at(s, p, from) && from < s.len() {
        the_first_place_is_found(s, p, from + 1);
    }
}

/// What follows the last occurrence of a character holds it no more, and only what ends with it was
/// taken off.
pub proof fn what_follows_the_last(s: Seq<char>, c: char)
    ensures
        !after_last(s, c).contains(c),
        s.contains(c) ==> ends_with(s, seq![c] + after_last(s, c)),
        !s.contains(c) ==> after_last(s, c) == s,
    decreases s.len(),
{
    first_bounds(s, c);
    let at = first(s, c) as int;
    if at < s.len() {
        let t = s.skip(at + 1);
        what_follows_the_last(t, c);
        let w = seq![c] + after_last(t, c);
        if t.contains(c) {
            assert(t.skip(t.len() - w.len()) == w);
            assert(s.skip(s.len() - w.len()) =~= t.skip(t.len() - w.len()));
        } else {
            assert(s.skip(s.len() - w.len()) =~= w);
        }
    } else {
        assert forall|k: int| 0 <= k < s.len() implies s[k] != c by {}
    }
}

/// Every character is replaced on its own: the one that is meant by the other text, any other by
/// itself, and what stands around it makes no difference.
pub proof fn every_character_is_replaced_alone(a: Seq<char>, x: char, b: Seq<char>, c: char, with: Seq<char>)
    ensures
        replaced(a + seq![x] + b, c, with) == replaced(a, c, with) + (if x == c { with } else { seq![x] })
            + replaced(b, c, with),
        replaced(Seq::<char>::empty(), c, with).len() == 0,
    decreases b.len(),
{
    let s = a + seq![x] + b;
    let one = if x == c { with } else { seq![x] };
    if b.len() == 0 {
        assert(s.drop_last() =~= a);
        assert(s.last() == x);
        assert(replaced(s, c, with) =~= replaced(a, c, with) + one + replaced(b, c, with));
    } else {
        every_character_is_replaced_alone(a, x, b.drop_last(), c, with);
        assert(s.drop_last() =~= a + seq![x] + b.drop_last());
        assert(s.last() == b.last());
        assert(replaced(s, c, with) =~= replaced(a, c, with) + one + replaced(b, c, with));
    }
}

/// An address is written with its last byte first: two digits for each byte, sixteens and ones, and a
/// colon behind each but the last.
pub proof fn an_address_is_written_backwards(b: Seq<u8>, i: int)
    requires
        b.len() == 6,
        0 <= i < 6,
    ensures
        mac_text(b).len() == 17,
        digit_value(mac_text(b)[3 * i]) == Some(b[5 - i] as int / 16),
        digit_value(mac_text(b)[3 * i + 1]) == Some(b[5 - i] as int % 16),
        !('a' <= mac_text(b)[3 * i] <= 'z') && !('a' <= mac_text(b)[3 * i + 1] <= 'z'),
        i < 5 ==> mac_text(b)[3 * i + 2] == ':',
{
    reveal_strlit(":");
    reveal(digit);
    digit_reads(b[5 - i] as int / 16);
    digit_reads(b[5 - i] as int % 16);
    let t = mac_text(b);
    assert(t.len() == 17);
    assert(t[3 * i] == hex2_upper(b[5 - i])[0]);
    assert(t[3 * i + 1] == hex2_upper(b[5 - i])[1]);
}

/// A written number is made of digits alone.
pub proof fn a_number_is_made_of_digits(n: nat, radix: nat, k: int)
    requires
        2 <= radix <= 16,
        0 <= k < numeral(n, radix).len(),
    ensures
        digit_value(numeral(n, radix)[k]) is Some,
        !is_space(numeral(n, radix)[k]),
    decreases n,
{
    if n < radix {
        digit_reads(n as int);
    } else {
        assert(0 <= n / radix < n) by (nonlinear_arith)
            requires n >= radix, radix >= 2;
        assert(0 <= n % radix < radix) by (nonlinear_arith)
            requires radix >= 2;
        digit_reads((n % radix) as int);
        let front = numeral((n / radix) as nat, radix);
        if k < front.len() {
            a_number_is_made_of_digits((n / radix) as nat, radix, k);
        }
    }
}

/// A piece that holds no separator is split off whole.
pub proof fn a_piece_is_split_off(p: Seq<char>, rest: Seq<char>, c: char)
    requires
        !p.contains(c),
    ensures
        split_on(p + seq![c] + rest, c) == seq![p] + split_on(rest, c),
        split_on(p, c) == seq![p],
{
    let s = p + seq![c] + rest;
    let n = p.len() as int;
    assert forall|i: int| 0 <= i < n implies p[i] != c && s[i] != c by {
        assert(p.contains(p[i]));
        assert(s[i] == p[i]);
    }
    first_at(s, c, n);
    first_at(p, c, n);
    assert(s.take(n) =~= p);
    assert(s.skip(n + 1) =~= rest);
}

} // verus!
