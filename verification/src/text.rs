//! Text as the library reads it: the order of strings, and strings built from characters.

use vstd::prelude::*;
use vstd::utf8::encode_utf8;

verus! {

/// `String::push`: the character is appended to the end of the text.
pub assume_specification[ String::push ](text: &mut String, c: char)
    ensures
        final(text)@ == old(text)@.push(c),
;

/// `Box::<str>::from(&str)`: a boxed copy of the same characters.
#[verifier::external_body]
pub(crate) fn boxed(text: &str) -> (copy: Box<str>)
    ensures
        copy@ == text@,
{
    Box::from(text)
}

/// Byte strings in lexicographic order: at the first difference the smaller byte decides,
/// and a prefix comes before what it is a prefix of.
pub open spec fn bytes_le(a: Seq<u8>, b: Seq<u8>) -> bool
    decreases a.len(),
{
    if a.len() == 0 {
        true
    } else if b.len() == 0 {
        false
    } else if a[0] != b[0] {
        a[0] < b[0]
    } else {
        bytes_le(a.drop_first(), b.drop_first())
    }
}

/// The order of strings: that of their UTF-8 bytes.
pub open spec fn text_le(a: Seq<char>, b: Seq<char>) -> bool {
    bytes_le(encode_utf8(a), encode_utf8(b))
}

pub proof fn bytes_le_total(a: Seq<u8>, b: Seq<u8>)
    ensures
        bytes_le(a, b) || bytes_le(b, a),
    decreases a.len(),
{
    if a.len() > 0 && b.len() > 0 && a[0] == b[0] {
        bytes_le_total(a.drop_first(), b.drop_first());
    }
}

pub proof fn bytes_le_transitive(a: Seq<u8>, b: Seq<u8>, c: Seq<u8>)
    requires
        bytes_le(a, b),
        bytes_le(b, c),
    ensures
        bytes_le(a, c),
    decreases a.len(),
{
    if a.len() > 0 && b.len() > 0 && c.len() > 0 && a[0] == b[0] && b[0] == c[0] {
        bytes_le_transitive(a.drop_first(), b.drop_first(), c.drop_first());
    }
}

pub proof fn bytes_le_antisymmetric(a: Seq<u8>, b: Seq<u8>)
    requires
        bytes_le(a, b),
        bytes_le(b, a),
    ensures
        a == b,
    decreases a.len(),
{
    if a.len() > 0 && b.len() > 0 {
        bytes_le_antisymmetric(a.drop_first(), b.drop_first());
        assert(a =~= seq![a[0]] + a.drop_first());
        assert(b =~= seq![b[0]] + b.drop_first());
    } else {
        assert(a =~= b);
    }
}

/// Two strings with the same bytes hold the same characters.
pub proof fn encoding_is_injective(a: Seq<char>, b: Seq<char>)
    requires
        encode_utf8(a) == encode_utf8(b),
    ensures
        a == b,
{
    vstd::utf8::encode_utf8_decode_utf8(a);
    vstd::utf8::encode_utf8_decode_utf8(b);
}

pub proof fn text_le_antisymmetric(a: Seq<char>, b: Seq<char>)
    requires
        text_le(a, b),
        text_le(b, a),
    ensures
        a == b,
{
    bytes_le_antisymmetric(encode_utf8(a), encode_utf8(b));
    encoding_is_injective(a, b);
}

/// Whether `a` comes no later than `b`.
pub fn at_most(a: &str, b: &str) -> (r: bool)
    ensures
        r == text_le(a@, b@),
{
    let x: &[u8] = a.as_bytes();
    let y: &[u8] = b.as_bytes();
    let mut i: usize = 0;
    assert(x@.skip(0) =~= x@);
    assert(y@.skip(0) =~= y@);
    while i < x.len() && i < y.len() && x[i] == y[i]
        invariant
            i <= x.len(),
            i <= y.len(),
            bytes_le(x@, y@) == bytes_le(x@.skip(i as int), y@.skip(i as int)),
        decreases x.len() - i,
    {
        assert(x@.skip(i as int).drop_first() =~= x@.skip(i + 1));
        assert(y@.skip(i as int).drop_first() =~= y@.skip(i + 1));
        i += 1;
    }
    if i == x.len() {
        true
    } else if i == y.len() {
        false
    } else {
        x[i] < y[i]
    }
}

/// Whether two strings hold the same characters.
pub fn same(a: &str, b: &str) -> (r: bool)
    ensures
        r == (a@ == b@),
{
    let x: &[u8] = a.as_bytes();
    let y: &[u8] = b.as_bytes();
    if x.len() != y.len() {
        return false;
    }
    let mut i: usize = 0;
    while i < x.len()
        invariant
            i <= x.len(),
            x.len() == y.len(),
            x@ == encode_utf8(a@),
            y@ == encode_utf8(b@),
            forall|k: int| 0 <= k < i ==> x@[k] == y@[k],
        decreases x.len() - i,
    {
        if x[i] != y[i] {
            return false;
        }
        i += 1;
    }
    proof {
        assert(x@ =~= y@);
        encoding_is_injective(a@, b@);
    }
    true
}

/// The characters of a string.
pub fn chars_of(text: &str) -> (chars: Vec<char>)
    ensures
        chars@ == text@,
{
    let mut chars: Vec<char> = Vec::new();
    for c in it: text.chars()
        invariant
            it.seq() == text@,
            chars@ == text@.take(it.index()),
    {
        chars.push(c);
        assert(text@.take(it.index() + 1) =~= text@.take(it.index()).push(c));
    }
    assert(text@.take(text@.len() as int) =~= text@);
    chars
}

/// The string of `chars[from..to]`.
pub fn from_chars(chars: &Vec<char>, from: usize, to: usize) -> (text: String)
    requires
        from <= to <= chars.len(),
    ensures
        text@ == chars@.subrange(from as int, to as int),
{
    let mut text = String::new();
    let mut i: usize = from;
    assert(chars@.subrange(from as int, from as int) =~= Seq::<char>::empty());
    while i < to
        invariant
            from <= i <= to <= chars.len(),
            text@ == chars@.subrange(from as int, i as int),
        decreases to - i,
    {
        text.push(chars[i]);
        assert(chars@.subrange(from as int, i + 1) =~= chars@.subrange(from as int, i as int).push(
            chars@[i as int],
        ));
        i += 1;
    }
    text
}

/// The characters of every string of a list.
pub open spec fn texts(strings: Seq<String>) -> Seq<Seq<char>> {
    strings.map_values(|text: String| text@)
}

/// The characters of an optional string.
pub open spec fn opt_text(text: Option<String>) -> Option<Seq<char>> {
    match text {
        Some(text) => Some(text@),
        None => None,
    }
}

/// A copy of an optional string.
pub fn copy_opt(text: &Option<String>) -> (copy: Option<String>)
    ensures
        opt_text(copy) == opt_text(*text),
{
    match text {
        Some(text) => Some(text.clone()),
        None => None,
    }
}

/// A copy of a list of strings.
pub fn copy_all(strings: &Vec<String>) -> (copy: Vec<String>)
    ensures
        texts(copy@) == texts(strings@),
{
    let mut copy: Vec<String> = Vec::new();
    let mut i: usize = 0;
    while i < strings.len()
        invariant
            i <= strings.len(),
            copy.len() == i,
            forall|k: int| 0 <= k < i ==> (#[trigger] copy@[k])@ == strings@[k]@,
        decreases strings.len() - i,
    {
        copy.push(strings[i].clone());
        i += 1;
    }
    assert(texts(copy@) =~= texts(strings@));
    copy
}

/// The decimal digit for a number below ten.
pub open spec fn digit(n: nat) -> char {
    if n == 0 {
        '0'
    } else if n == 1 {
        '1'
    } else if n == 2 {
        '2'
    } else if n == 3 {
        '3'
    } else if n == 4 {
        '4'
    } else if n == 5 {
        '5'
    } else if n == 6 {
        '6'
    } else if n == 7 {
        '7'
    } else if n == 8 {
        '8'
    } else {
        '9'
    }
}

/// A number in decimal, without leading zeros.
pub open spec fn decimal_text(n: nat) -> Seq<char>
    decreases n,
{
    if n < 10 {
        seq![digit(n)]
    } else {
        decimal_text(n / 10).push(digit(n % 10))
    }
}

/// A number in decimal.
pub fn decimal(n: u64) -> (text: String)
    ensures
        text@ == decimal_text(n as nat),
    decreases n,
{
    let last: u64 = n % 10;
    let c: char = match last {
        0 => '0',
        1 => '1',
        2 => '2',
        3 => '3',
        4 => '4',
        5 => '5',
        6 => '6',
        7 => '7',
        8 => '8',
        _ => '9',
    };
    let mut text: String = if n < 10 {
        String::new()
    } else {
        decimal(n / 10)
    };
    text.push(c);
    assert(n < 10 ==> text@ =~= seq![digit(n as nat)]);
    text
}

/// A whole number in decimal, with a sign in front of a negative one.
pub open spec fn signed_text(n: int) -> Seq<char> {
    if n < 0 {
        seq!['-'] + decimal_text((-n) as nat)
    } else {
        decimal_text(n as nat)
    }
}

/// A whole number in decimal.
pub fn signed(n: i64) -> (text: String)
    ensures
        text@ == signed_text(n as int),
{
    if n < 0 {
        let mut text: String = String::new();
        text.push('-');
        assert(text@ =~= seq!['-']);
        let size: u64 = if n == i64::MIN {
            9223372036854775808u64
        } else {
            (-n) as u64
        };
        text.append(&decimal(size));
        text
    } else {
        decimal(n as u64)
    }
}

/// A line without the carriage return that may end it.
pub open spec fn without_return(line: Seq<char>) -> Seq<char> {
    if line.len() > 0 && line.last() == '\r' {
        line.drop_last()
    } else {
        line
    }
}

/// The lines of a text so far, and what comes after the last newline.
pub open spec fn split_lines(text: Seq<char>) -> (Seq<Seq<char>>, Seq<char>)
    decreases text.len(),
{
    if text.len() == 0 {
        (Seq::empty(), Seq::empty())
    } else {
        let (lines, rest) = split_lines(text.drop_last());
        if text.last() == '\n' {
            (lines.push(without_return(rest)), Seq::empty())
        } else {
            (lines, rest.push(text.last()))
        }
    }
}

/// The lines of a text, without what ends them. What follows the last newline is a line only
/// if it is not empty.
pub open spec fn lines_of(text: Seq<char>) -> Seq<Seq<char>> {
    let (lines, rest) = split_lines(text);
    if rest.len() == 0 {
        lines
    } else {
        lines.push(rest)
    }
}

/// The lines of a text.
pub fn lines_in(text: &str) -> (lines: Vec<String>)
    ensures
        texts(lines@) == lines_of(text@),
{
    let chars: Vec<char> = chars_of(text);
    let mut lines: Vec<String> = Vec::new();
    let mut start: usize = 0;
    let mut i: usize = 0;
    assert(chars@.take(0) =~= Seq::empty());
    assert(chars@.subrange(0, 0) =~= Seq::empty());
    assert(texts(lines@) =~= Seq::empty());
    while i < chars.len()
        invariant
            start <= i <= chars.len(),
            split_lines(chars@.take(i as int)) == (
                texts(lines@),
                chars@.subrange(start as int, i as int),
            ),
        decreases chars.len() - i,
    {
        let ghost before = lines@;
        let ghost rest = chars@.subrange(start as int, i as int);
        assert(chars@.take(i + 1).drop_last() =~= chars@.take(i as int));
        if chars[i] == '\n' {
            let end: usize = if i > start && chars[i - 1] == '\r' {
                i - 1
            } else {
                i
            };
            assert(chars@.subrange(start as int, end as int) =~= without_return(rest));
            lines.push(from_chars(&chars, start, end));
            assert(texts(lines@) =~= texts(before).push(without_return(rest)));
            start = i + 1;
            assert(chars@.subrange(i + 1, i + 1) =~= Seq::empty());
        } else {
            assert(chars@.subrange(start as int, i + 1) =~= rest.push(chars@[i as int]));
        }
        i += 1;
    }
    assert(chars@.take(chars.len() as int) =~= text@);
    if start < chars.len() {
        let ghost before = lines@;
        lines.push(from_chars(&chars, start, chars.len()));
        assert(texts(lines@) =~= texts(before).push(
            chars@.subrange(start as int, chars.len() as int),
        ));
    }
    lines
}

/// Strings in a row, with `between` between every two of them.
pub open spec fn strung(parts: Seq<Seq<char>>, between: Seq<char>) -> Seq<char>
    decreases parts.len(),
{
    if parts.len() == 0 {
        Seq::empty()
    } else if parts.len() == 1 {
        parts[0]
    } else {
        strung(parts.drop_last(), between) + between + parts.last()
    }
}

/// The strings from `from` on in a row, with `between` between every two of them.
pub fn string_up(parts: &Vec<String>, from: usize, between: &str) -> (text: String)
    requires
        from <= parts.len(),
    ensures
        text@ == strung(texts(parts@).skip(from as int), between@),
{
    let mut text: String = String::new();
    let ghost all = texts(parts@).skip(from as int);
    let mut i: usize = from;
    assert(all.take(0) =~= Seq::empty());
    while i < parts.len()
        invariant
            from <= i <= parts.len(),
            all == texts(parts@).skip(from as int),
            text@ == strung(all.take(i - from), between@),
        decreases parts.len() - i,
    {
        let ghost longer = all.take(i - from + 1);
        assert(longer.drop_last() =~= all.take(i - from));
        assert(longer.last() == parts@[i as int]@);
        if i > from {
            text.append(between);
        }
        text.append(&parts[i]);
        assert(i == from ==> text@ =~= longer[0]);
        i += 1;
    }
    assert(all.take(all.len() as int) =~= all);
    text
}

/// Whether a character is white space, as Unicode has it.
pub open spec fn is_white(c: char) -> bool {
    let n = c as u32;
    ||| 0x09 <= n <= 0x0d
    ||| n == 0x20
    ||| n == 0x85
    ||| n == 0xa0
    ||| n == 0x1680
    ||| 0x2000 <= n <= 0x200a
    ||| n == 0x2028
    ||| n == 0x2029
    ||| n == 0x202f
    ||| n == 0x205f
    ||| n == 0x3000
}

/// Whether a character is white space.
pub fn white(c: char) -> (r: bool)
    ensures
        r == is_white(c),
{
    let n: u32 = c as u32;
    (0x09 <= n && n <= 0x0d) || n == 0x20 || n == 0x85 || n == 0xa0 || n == 0x1680 || (0x2000 <= n
        && n <= 0x200a) || n == 0x2028 || n == 0x2029 || n == 0x202f || n == 0x205f || n == 0x3000
}

/// A text without the white space it begins and ends with.
pub open spec fn trim_of(text: Seq<char>) -> Seq<char>
    decreases text.len(),
{
    if text.len() == 0 {
        text
    } else if is_white(text[0]) {
        trim_of(text.drop_first())
    } else if is_white(text.last()) {
        trim_of(text.drop_last())
    } else {
        text
    }
}

/// A text without the white space it begins and ends with.
pub fn trim(text: &str) -> (trimmed: String)
    ensures
        trimmed@ == trim_of(text@),
{
    let chars: Vec<char> = chars_of(text);
    let mut from: usize = 0;
    let mut to: usize = chars.len();
    assert(chars@.subrange(0, chars@.len() as int) =~= chars@);
    while from < to && white(chars[from])
        invariant
            from <= to == chars.len(),
            trim_of(chars@) == trim_of(chars@.subrange(from as int, to as int)),
        decreases to - from,
    {
        assert(chars@.subrange(from as int, to as int).drop_first() =~= chars@.subrange(
            from + 1,
            to as int,
        ));
        from += 1;
    }
    while from < to && white(chars[to - 1])
        invariant
            from <= to <= chars.len(),
            from < to ==> !is_white(chars@[from as int]),
            trim_of(chars@) == trim_of(chars@.subrange(from as int, to as int)),
        decreases to - from,
    {
        assert(chars@.subrange(from as int, to as int).drop_last() =~= chars@.subrange(
            from as int,
            to - 1,
        ));
        to -= 1;
    }
    from_chars(&chars, from, to)
}

/// `n` spaces.
pub open spec fn spaces(n: int) -> Seq<char> {
    Seq::new(
        if n > 0 {
            n as nat
        } else {
            0
        },
        |i: int| ' ',
    )
}

/// A text in a field of `width` characters, at its right end.
pub open spec fn at_right(text: Seq<char>, width: int) -> Seq<char> {
    spaces(width - text.len()) + text
}

/// A text in a field of `width` characters, at its left end.
pub open spec fn at_left(text: Seq<char>, width: int) -> Seq<char> {
    text + spaces(width - text.len())
}

/// The spaces that fill a field of `width` characters up.
fn fill(text: &str, width: usize) -> (rest: String)
    ensures
        rest@ == spaces(width - text@.len()),
{
    let taken: usize = chars_of(text).len();
    let mut rest: String = String::new();
    let mut n: usize = taken;
    assert(rest@ =~= spaces(0));
    while n < width
        invariant
            taken <= n,
            n <= width || n == taken,
            rest@ == spaces(n - taken),
        decreases width - n,
    {
        rest.push(' ');
        assert(rest@ =~= spaces(n + 1 - taken));
        n += 1;
    }
    assert(rest@ =~= spaces(width - taken));
    rest
}

/// A text in a field of `width` characters, at its right end.
pub fn align_right(text: &str, width: usize) -> (field: String)
    ensures
        field@ == at_right(text@, width as int),
{
    let mut field: String = fill(text, width);
    field.append(text);
    field
}

/// A text in a field of `width` characters, at its left end.
pub fn align_left(text: &str, width: usize) -> (field: String)
    ensures
        field@ == at_left(text@, width as int),
{
    let mut field: String = text.to_owned();
    field.append(&fill(text, width));
    field
}

/// What a digit stands for.
pub open spec fn digit_value(c: char) -> int {
    c as int - '0' as int
}

/// The number a row of digits stands for, the first digit counting most.
pub open spec fn value_of(digits: Seq<char>) -> int
    decreases digits.len(),
{
    if digits.len() == 0 {
        0
    } else {
        10 * value_of(digits.drop_last()) + digit_value(digits.last())
    }
}

/// A number in decimal is digits that stand for the number, without a zero in front.
pub proof fn a_decimal_stands_for_its_number(n: nat)
    ensures
        value_of(decimal_text(n)) == n,
        decimal_text(n).len() > 0,
        n > 0 ==> decimal_text(n)[0] != '0',
        n == 0 ==> decimal_text(n) == seq!['0'],
        forall|i: int| 0 <= i < decimal_text(n).len() ==> '0' <= #[trigger] decimal_text(n)[i] <= '9',
    decreases n,
{
    let text = decimal_text(n);
    if n < 10 {
        assert(text.drop_last() =~= Seq::empty());
        assert(value_of(Seq::<char>::empty()) == 0);
        assert(value_of(text) == digit_value(digit(n)));
    } else {
        a_decimal_stands_for_its_number(n / 10);
        assert(text.drop_last() =~= decimal_text(n / 10));
        assert(text.last() == digit(n % 10));
        assert(digit_value(digit(n % 10)) == n % 10);
        assert(n == 10 * (n / 10) + n % 10);
    }
}

/// A text in a field keeps its characters: the field is filled up with spaces, on the left where
/// the text stands at the right end and on the right where it stands at the left, and a text that
/// is wider than its field stays as it is.
pub proof fn a_field_is_filled_up_with_spaces(text: Seq<char>, width: int)
    ensures
        at_right(text, width).len() == at_left(text, width).len(),
        at_right(text, width).len() == if text.len() >= width {
            text.len() as int
        } else {
            width
        },
        at_right(text, width).skip(at_right(text, width).len() - text.len()) == text,
        at_left(text, width).take(text.len() as int) == text,
        forall|i: int|
            0 <= i < at_right(text, width).len() - text.len() ==> #[trigger] at_right(text, width)[i]
                == ' ',
        forall|i: int|
            text.len() <= i < at_left(text, width).len() ==> #[trigger] at_left(text, width)[i]
                == ' ',
{
    assert(at_right(text, width).skip(at_right(text, width).len() - text.len()) =~= text);
    assert(at_left(text, width).take(text.len() as int) =~= text);
}

/// Trimming takes white space off both ends, all of it and nothing else.
pub proof fn trimming_takes_off_white_space(text: Seq<char>) -> (ends: (int, int))
    ensures
        0 <= ends.0 <= ends.1 <= text.len(),
        trim_of(text) == text.subrange(ends.0, ends.1),
        forall|i: int| 0 <= i < ends.0 ==> is_white(#[trigger] text[i]),
        forall|i: int| ends.1 <= i < text.len() ==> is_white(#[trigger] text[i]),
        ends.0 < ends.1 ==> !is_white(text[ends.0]) && !is_white(text[ends.1 - 1]),
    decreases text.len(),
{
    if text.len() == 0 {
        assert(text.subrange(0, 0) =~= text);
        (0, 0)
    } else if is_white(text[0]) {
        let rest = text.drop_first();
        let (a, b) = trimming_takes_off_white_space(rest);
        assert(text.subrange(a + 1, b + 1) =~= rest.subrange(a, b));
        assert forall|i: int| 0 <= i < a + 1 implies is_white(#[trigger] text[i]) by {
            if i > 0 {
                assert(rest[i - 1] == text[i]);
            }
        }
        assert forall|i: int| b + 1 <= i < text.len() implies is_white(#[trigger] text[i]) by {
            assert(rest[i - 1] == text[i]);
        }
        (a + 1, b + 1)
    } else if is_white(text.last()) {
        let rest = text.drop_last();
        let (a, b) = trimming_takes_off_white_space(rest);
        assert(text.subrange(a, b) =~= rest.subrange(a, b));
        assert forall|i: int| 0 <= i < a implies is_white(#[trigger] text[i]) by {
            assert(rest[i] == text[i]);
        }
        assert forall|i: int| b <= i < text.len() implies is_white(#[trigger] text[i]) by {
            if i < rest.len() {
                assert(rest[i] == text[i]);
            }
        }
        (a, b)
    } else {
        assert(text.subrange(0, text.len() as int) =~= text);
        (0, text.len() as int)
    }
}

/// Strings in a row: none come to nothing, one to itself, and each further one follows behind what
/// stands between.
pub proof fn strings_in_a_row_stand_apart(parts: Seq<Seq<char>>, between: Seq<char>, last: Seq<char>)
    ensures
        strung(Seq::empty(), between) == Seq::<char>::empty(),
        strung(seq![last], between) == last,
        parts.len() > 0 ==> strung(parts.push(last), between) == strung(parts, between) + between
            + last,
{
    assert(parts.push(last).drop_last() =~= parts);
}

} // verus!
