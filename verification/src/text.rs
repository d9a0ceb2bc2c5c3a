//! Lines, words and numbers in text.

use vstd::prelude::*;

verus! {

/// Appends one character. `String::push` of std: the text afterwards is the
/// text before with the character behind it.
pub assume_specification[ String::push ](s: &mut String, c: char)
    ensures
        final(s)@ == old(s)@.push(c),
;

/// The error that reading `text` as an unsigned number up to `largest` gives,
/// in words.
pub uninterp spec fn unsigned_error(text: Seq<char>, largest: nat) -> Seq<char>;

/// The digits of an unsigned number, behind its sign if it has one.
pub open spec fn unsigned_digits(text: Seq<char>) -> Seq<char> {
    if text.len() > 0 && text[0] == '+' {
        text.skip(1)
    } else {
        text
    }
}

/// Whether `text` is an unsigned number: digits, behind a plus or not.
pub open spec fn is_unsigned(text: Seq<char>) -> bool {
    let digits = unsigned_digits(text);
    digits.len() > 0 && forall|i: int| 0 <= i < digits.len() ==> '0' <= #[trigger] digits[i] <= '9'
}

/// The number that `digits` write.
pub open spec fn digits_value(digits: Seq<char>) -> nat
    decreases digits.len(),
{
    if digits.len() == 0 {
        0
    } else {
        digits_value(digits.drop_last()) * 10 + (digits.last() as nat - '0' as nat) as nat
    }
}

/// The unsigned number that `text` writes, if it is one and fits.
pub open spec fn unsigned(text: Seq<char>) -> Option<nat> {
    if is_unsigned(text) && digits_value(unsigned_digits(text)) <= usize::MAX {
        Some(digits_value(unsigned_digits(text)))
    } else {
        None
    }
}

/// `str::parse::<usize>` of std: an optional plus and decimal digits, nothing
/// else, as far as the number fits. Of the error only its text is kept, which
/// depends on what was read and on the largest number that fits alone.
#[verifier::external_body]
pub(crate) fn parse_unsigned(text: &str) -> (r: Result<usize, String>)
    ensures
        match r {
            Ok(n) => unsigned(text@) == Some(n as nat),
            Err(e) => unsigned(text@) is None && e@ == unsigned_error(text@, usize::MAX as nat),
        },
{
    text.parse::<usize>().map_err(|e| e.to_string())
}

/// `text` between quotes, with what is not printable escaped.
pub uninterp spec fn quoted(text: Seq<char>) -> Seq<char>;

/// `Debug` of `str` in std, which quotes and escapes. What it escapes is left
/// unsaid; it depends on the text alone.
#[verifier::external_body]
pub(crate) fn quote(text: &str) -> (r: String)
    ensures
        r@ == quoted(text@),
{
    format!("{:?}", text)
}

/// Whether a character is white space.
pub open spec fn is_white(c: char) -> bool {
    ||| 0x09 <= c as u32 <= 0x0d
    ||| c as u32 == 0x20
    ||| c as u32 == 0x85
    ||| c as u32 == 0xa0
    ||| c as u32 == 0x1680
    ||| 0x2000 <= c as u32 <= 0x200a
    ||| c as u32 == 0x2028
    ||| c as u32 == 0x2029
    ||| c as u32 == 0x202f
    ||| c as u32 == 0x205f
    ||| c as u32 == 0x3000
}

pub fn white(c: char) -> (r: bool)
    ensures
        r == is_white(c),
{
    let n: u32 = c as u32;
    (0x09 <= n && n <= 0x0d) || n == 0x20 || n == 0x85 || n == 0xa0 || n == 0x1680 || (0x2000 <= n
        && n <= 0x200a) || n == 0x2028 || n == 0x2029 || n == 0x202f || n == 0x205f || n == 0x3000
}

/// The characters of the texts, one by one.
pub open spec fn contents(texts: Seq<Vec<char>>) -> Seq<Seq<char>> {
    Seq::new(texts.len(), |i: int| texts[i]@)
}

/// Where the first character that `stop` accepts is, or the length.
pub open spec fn first_where(s: Seq<char>, stop: spec_fn(char) -> bool) -> int
    decreases s.len(),
{
    if s.len() == 0 || stop(s[0]) {
        0
    } else {
        1 + first_where(s.skip(1), stop)
    }
}

/// What a search for the first character finds.
pub proof fn lemma_first_where(s: Seq<char>, stop: spec_fn(char) -> bool, n: int)
    requires
        0 <= n <= s.len(),
        forall|i: int| 0 <= i < n ==> !stop(#[trigger] s[i]),
        n < s.len() ==> stop(s[n]),
    ensures
        first_where(s, stop) == n,
    decreases n,
{
    if n > 0 {
        let t = s.skip(1);
        assert forall|i: int| 0 <= i < n - 1 implies !stop(#[trigger] t[i]) by {
            assert(t[i] == s[i + 1]);
        }
        lemma_first_where(t, stop, n - 1);
    }
}

/// A line without the carriage return before its line feed.
pub open spec fn without_return(line: Seq<char>) -> Seq<char> {
    if line.len() > 0 && line.last() == '\r' {
        line.drop_last()
    } else {
        line
    }
}

/// The lines of a text. A line feed ends a line, and so does the end of the
/// text unless nothing stands before it.
pub open spec fn lines(s: Seq<char>) -> Seq<Seq<char>>
    decreases s.len(),
{
    let n = first_where(s, |c: char| c == '\n');
    if s.len() == 0 {
        Seq::empty()
    } else if n < 0 || n >= s.len() {
        seq![s]
    } else {
        seq![without_return(s.take(n))] + lines(s.skip(n + 1))
    }
}

/// A text without the white space around it.
pub open spec fn trimmed(s: Seq<char>) -> Seq<char>
    decreases s.len(),
{
    if s.len() > 0 && is_white(s[0]) {
        trimmed(s.skip(1))
    } else if s.len() > 0 && is_white(s.last()) {
        trimmed(s.drop_last())
    } else {
        s
    }
}

/// The words of a text: what stands between white space.
pub open spec fn words(s: Seq<char>) -> Seq<Seq<char>>
    decreases s.len(),
{
    let n = first_where(s, |c: char| is_white(c));
    if s.len() == 0 {
        Seq::empty()
    } else if is_white(s[0]) {
        words(s.skip(1))
    } else if n <= 0 || n >= s.len() {
        seq![s]
    } else {
        seq![s.take(n)] + words(s.skip(n))
    }
}

/// What stands behind `prefix` in a text that starts with it.
pub open spec fn behind(s: Seq<char>, prefix: Seq<char>) -> Option<Seq<char>> {
    if prefix.len() <= s.len() && s.take(prefix.len() as int) == prefix {
        Some(s.skip(prefix.len() as int))
    } else {
        None
    }
}

/// The digits of a number in base ten.
pub open spec fn decimal(n: nat) -> Seq<char>
    decreases n,
{
    if n < 10 {
        seq![digit(n)]
    } else {
        decimal(n / 10).push(digit(n % 10))
    }
}

/// The character of one hexadecimal digit.
pub open spec fn digit(n: nat) -> char {
    seq!['0', '1', '2', '3', '4', '5', '6', '7', '8', '9', 'a', 'b', 'c', 'd', 'e', 'f'][n as int]
}

/// The last `places` hexadecimal digits of a number.
pub open spec fn hexadecimal(n: nat, places: nat) -> Seq<char>
    decreases places,
{
    if places == 0 {
        Seq::empty()
    } else {
        hexadecimal(n / 16, (places - 1) as nat).push(digit(n % 16))
    }
}

pub fn digit_char(n: u8) -> (r: char)
    requires
        n < 16,
    ensures
        r == digit(n as nat),
{
    match n {
        0 => '0',
        1 => '1',
        2 => '2',
        3 => '3',
        4 => '4',
        5 => '5',
        6 => '6',
        7 => '7',
        8 => '8',
        9 => '9',
        10 => 'a',
        11 => 'b',
        12 => 'c',
        13 => 'd',
        14 => 'e',
        _ => 'f',
    }
}

pub fn append_decimal(s: &mut String, n: u64)
    ensures
        final(s)@ == old(s)@ + decimal(n as nat),
    decreases n,
{
    if n >= 10 {
        append_decimal(s, n / 10);
    }
    s.push(digit_char((n % 10) as u8));
    assert(s@ =~= old(s)@ + decimal(n as nat));
}

pub fn append_hexadecimal(s: &mut String, n: u64, places: u8)
    ensures
        final(s)@ == old(s)@ + hexadecimal(n as nat, places as nat),
    decreases places,
{
    if places > 0 {
        append_hexadecimal(s, n / 16, places - 1);
        s.push(digit_char((n % 16) as u8));
    }
    assert(s@ =~= old(s)@ + hexadecimal(n as nat, places as nat));
}

/// The characters of a string.
pub fn chars_of(s: &str) -> (r: Vec<char>)
    ensures
        r@ == s@,
{
    let mut r: Vec<char> = Vec::new();
    for c in it: s.chars()
        invariant
            r@ == s@.take(it.index() as int),
            it.seq() == s@,
    {
        r.push(c);
        assert(r@ =~= s@.take(it.index() + 1));
    }
    assert(r@ =~= s@);
    r
}

/// The string of some characters.
pub fn string_of(chars: &Vec<char>) -> (r: String)
    ensures
        r@ == chars@,
{
    let mut r = String::new();
    let mut i: usize = 0;
    while i < chars.len()
        invariant
            i <= chars.len(),
            r@ == chars@.take(i as int),
        decreases chars.len() - i,
    {
        r.push(chars[i]);
        i = i + 1;
        assert(r@ =~= chars@.take(i as int));
    }
    assert(r@ =~= chars@);
    r
}

/// The characters from `from` up to `to`.
pub fn section(chars: &Vec<char>, from: usize, to: usize) -> (r: Vec<char>)
    requires
        from <= to <= chars.len(),
    ensures
        r@ == chars@.subrange(from as int, to as int),
{
    let mut r: Vec<char> = Vec::new();
    let mut i: usize = from;
    while i < to
        invariant
            from <= i <= to <= chars.len(),
            r@ == chars@.subrange(from as int, i as int),
        decreases to - i,
    {
        r.push(chars[i]);
        i = i + 1;
        assert(r@ =~= chars@.subrange(from as int, i as int));
    }
    r
}

/// Whether some characters are those of a string.
pub fn same(chars: &Vec<char>, s: &str) -> (r: bool)
    ensures
        r == (chars@ == s@),
{
    let other = chars_of(s);
    if chars.len() != other.len() {
        return false;
    }
    let mut i: usize = 0;
    while i < chars.len()
        invariant
            i <= chars.len(),
            chars.len() == other.len(),
            other@ == s@,
            forall|k: int| 0 <= k < i ==> chars@[k] == other@[k],
        decreases chars.len() - i,
    {
        if chars[i] != other[i] {
            return false;
        }
        i = i + 1;
    }
    assert(chars@ =~= other@);
    true
}

/// What stands behind `prefix`, if the text starts with it.
pub fn strip_prefix(chars: &Vec<char>, prefix: &str) -> (r: Option<Vec<char>>)
    ensures
        match r {
            Some(rest) => behind(chars@, prefix@) == Some(rest@),
            None => behind(chars@, prefix@) is None,
        },
{
    let other = chars_of(prefix);
    if chars.len() < other.len() {
        return None;
    }
    let mut i: usize = 0;
    while i < other.len()
        invariant
            i <= other.len() <= chars.len(),
            other@ == prefix@,
            forall|k: int| 0 <= k < i ==> chars@[k] == other@[k],
        decreases other.len() - i,
    {
        if chars[i] != other[i] {
            assert(chars@.take(other.len() as int)[i as int] != prefix@[i as int]);
            return None;
        }
        i = i + 1;
    }
    assert(chars@.take(other.len() as int) =~= prefix@);
    let rest = section(chars, other.len(), chars.len());
    assert(rest@ =~= chars@.skip(other.len() as int));
    Some(rest)
}

pub fn lines_of(text: &Vec<char>) -> (r: Vec<Vec<char>>)
    ensures
        contents(r@) == lines(text@),
{
    let mut r: Vec<Vec<char>> = Vec::new();
    let mut start: usize = 0;
    let ghost stop = |c: char| c == '\n';
    assert(text@.skip(0) =~= text@);
    assert(contents(r@) + lines(text@.skip(0)) =~= lines(text@));
    while start < text.len()
        invariant
            start <= text.len(),
            stop == (|c: char| c == '\n'),
            contents(r@) + lines(text@.skip(start as int)) == lines(text@),
        decreases text.len() - start,
    {
        let ghost rest = text@.skip(start as int);
        let ghost before = contents(r@);
        let mut end: usize = start;
        while end < text.len() && text[end] != '\n'
            invariant
                start <= end <= text.len(),
                forall|i: int| start <= i < end ==> text@[i] != '\n',
            decreases text.len() - end,
        {
            end = end + 1;
        }
        proof {
            lemma_first_where(rest, stop, end - start);
        }
        if end == text.len() {
            r.push(section(text, start, end));
            assert(r@.last()@ =~= rest);
            assert(lines(rest) == seq![rest]);
            assert(contents(r@) =~= before + seq![rest]);
            assert(text@.skip(end as int) =~= Seq::<char>::empty());
            assert(contents(r@) + lines(text@.skip(end as int)) =~= lines(text@));
            start = end;
        } else {
            let mut line_end: usize = end;
            if end > start && text[end - 1] == '\r' {
                line_end = end - 1;
            }
            let line = section(text, start, line_end);
            let ghost whole = rest.take(end - start);
            assert(line@ =~= without_return(whole));
            r.push(line);
            assert(contents(r@) =~= before + seq![without_return(whole)]);
            assert(rest.skip(end - start + 1) =~= text@.skip(end + 1));
            assert(lines(rest) == seq![without_return(whole)] + lines(text@.skip(end + 1)));
            assert(contents(r@) + lines(text@.skip(end + 1)) =~= before + lines(rest));
            start = end + 1;
        }
    }
    assert(text@.skip(start as int) =~= Seq::<char>::empty());
    assert(contents(r@) =~= lines(text@));
    r
}

pub fn trim(chars: &Vec<char>) -> (r: Vec<char>)
    ensures
        r@ == trimmed(chars@),
{
    let mut from: usize = 0;
    let mut to: usize = chars.len();
    assert(chars@.subrange(0, chars.len() as int) =~= chars@);
    while from < to && white(chars[from])
        invariant
            from <= to == chars.len(),
            trimmed(chars@.subrange(from as int, to as int)) == trimmed(chars@),
        decreases to - from,
    {
        let ghost s = chars@.subrange(from as int, to as int);
        assert(s.skip(1) =~= chars@.subrange(from + 1, to as int));
        from = from + 1;
    }
    while from < to && white(chars[to - 1])
        invariant
            from <= to <= chars.len(),
            from < to ==> !is_white(chars@[from as int]),
            trimmed(chars@.subrange(from as int, to as int)) == trimmed(chars@),
        decreases to - from,
    {
        let ghost s = chars@.subrange(from as int, to as int);
        assert(s.drop_last() =~= chars@.subrange(from as int, to - 1));
        to = to - 1;
    }
    section(chars, from, to)
}

pub fn words_of(text: &Vec<char>) -> (r: Vec<Vec<char>>)
    ensures
        contents(r@) == words(text@),
{
    let mut r: Vec<Vec<char>> = Vec::new();
    let mut start: usize = 0;
    let ghost stop = |c: char| is_white(c);
    assert(text@.skip(0) =~= text@);
    assert(contents(r@) + words(text@.skip(0)) =~= words(text@));
    while start < text.len()
        invariant
            start <= text.len(),
            stop == (|c: char| is_white(c)),
            contents(r@) + words(text@.skip(start as int)) == words(text@),
        decreases text.len() - start,
    {
        let ghost rest = text@.skip(start as int);
        let ghost before = contents(r@);
        if white(text[start]) {
            assert(rest.skip(1) =~= text@.skip(start + 1));
            start = start + 1;
        } else {
            let mut end: usize = start;
            while end < text.len() && !white(text[end])
                invariant
                    start <= end <= text.len(),
                    !is_white(text@[start as int]),
                    forall|i: int| start <= i < end ==> !is_white(text@[i]),
                decreases text.len() - end,
            {
                end = end + 1;
            }
            proof {
                lemma_first_where(rest, stop, end - start);
            }
            assert(end > start);
            r.push(section(text, start, end));
            assert(r@.last()@ =~= rest.take(end - start));
            assert(contents(r@) =~= before + seq![rest.take(end - start)]);
            if end == text.len() {
                assert(rest.take(end - start) =~= rest);
                assert(words(rest) == seq![rest]);
                assert(text@.skip(end as int) =~= Seq::<char>::empty());
            } else {
                assert(rest.skip(end - start) =~= text@.skip(end as int));
                assert(words(rest) == seq![rest.take(end - start)] + words(text@.skip(end as int)));
            }
            assert(contents(r@) + words(text@.skip(end as int)) =~= before + words(rest));
            start = end;
        }
    }
    assert(text@.skip(start as int) =~= Seq::<char>::empty());
    assert(contents(r@) =~= words(text@));
    r
}

/// Where a text first holds `part`, from place `from` on.
pub open spec fn found_from(s: Seq<char>, part: Seq<char>, from: int) -> Option<int>
    decreases s.len() + 1 - from,
{
    if from < 0 || from + part.len() > s.len() {
        None
    } else if s.subrange(from, from + part.len()) == part {
        Some(from)
    } else {
        found_from(s, part, from + 1)
    }
}

/// A text first holds `part` where no earlier place does.
pub proof fn lemma_found(s: Seq<char>, part: Seq<char>, from: int)
    requires
        0 <= from,
    ensures
        match found_from(s, part, from) {
            Some(i) => from <= i && i + part.len() <= s.len() && s.subrange(i, i + part.len())
                == part && forall|k: int|
                from <= k < i ==> #[trigger] s.subrange(k, k + part.len()) != part,
            None => forall|k: int|
                from <= k && k + part.len() <= s.len() ==> #[trigger] s.subrange(k, k + part.len())
                    != part,
        },
    decreases s.len() + 1 - from,
{
    if from + part.len() <= s.len() && s.subrange(from, from + part.len()) != part {
        lemma_found(s, part, from + 1);
    }
}

/// Whether `part` stands in a text at place `at`.
fn stands_at(chars: &Vec<char>, part: &Vec<char>, at: usize) -> (r: bool)
    requires
        at + part@.len() <= chars@.len(),
    ensures
        r == (chars@.subrange(at as int, at + part@.len()) == part@),
{
    let mut i: usize = 0;
    while i < part.len()
        invariant
            i <= part@.len(),
            at + part@.len() <= chars.len(),
            forall|k: int| 0 <= k < i ==> chars@[at + k] == part@[k],
        decreases part@.len() - i,
    {
        if chars[at + i] != part[i] {
            assert(chars@.subrange(at as int, at + part@.len())[i as int] != part@[i as int]);
            return false;
        }
        i = i + 1;
    }
    assert(chars@.subrange(at as int, at + part@.len()) =~= part@);
    true
}

/// Finds where a text first holds `part`, from place `from` on.
pub fn find(chars: &Vec<char>, part: &str, from: usize) -> (r: Option<usize>)
    ensures
        match r {
            Some(i) => found_from(chars@, part@, from as int) == Some(i as int) && from <= i && i
                + part@.len() <= chars@.len(),
            None => found_from(chars@, part@, from as int) is None,
        },
{
    let wanted = chars_of(part);
    let mut i: usize = from;
    while i <= chars.len() && wanted.len() <= chars.len() - i
        invariant
            from <= i,
            wanted@ == part@,
            found_from(chars@, part@, from as int) == found_from(chars@, part@, i as int),
            i <= chars@.len() || i == from,
        decreases chars@.len() + 1 - i,
    {
        if stands_at(chars, &wanted, i) {
            return Some(i);
        }
        proof {
            if i == chars@.len() {
                assert(chars@.subrange(i as int, i + part@.len()) =~= part@);
            }
        }
        i = i + 1;
    }
    None
}

/// A text without the white space before it.
pub open spec fn trimmed_start(s: Seq<char>) -> Seq<char>
    decreases s.len(),
{
    if s.len() > 0 && is_white(s[0]) {
        trimmed_start(s.skip(1))
    } else {
        s
    }
}

/// Where the first character from `from` on is that is no white space.
pub fn skip_white(chars: &Vec<char>, from: usize) -> (r: usize)
    requires
        from <= chars@.len(),
    ensures
        from <= r <= chars@.len(),
        chars@.skip(r as int) == trimmed_start(chars@.skip(from as int)),
{
    let mut i: usize = from;
    while i < chars.len() && white(chars[i])
        invariant
            from <= i <= chars@.len(),
            trimmed_start(chars@.skip(i as int)) == trimmed_start(chars@.skip(from as int)),
        decreases chars@.len() - i,
    {
        assert(chars@.skip(i as int).skip(1) =~= chars@.skip(i + 1));
        i = i + 1;
    }
    i
}

} // verus!
