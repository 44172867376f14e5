//! Plain operations on text: splitting, trimming, and numbers in and out of it.
use vstd::prelude::*;

verus! {

/// `String::push` appends its argument at the end.
pub assume_specification[ std::string::String::push ](s: &mut String, c: char)
    ensures
        final(s)@ == old(s)@.push(c),
;

/// The characters that count as white space: those with the Unicode property
/// `White_Space`.
pub open spec fn is_white(c: char) -> bool {
    let code = c as u32;
    ||| 9 <= code <= 13
    ||| code == 32
    ||| code == 0x85
    ||| code == 0xa0
    ||| code == 0x1680
    ||| 0x2000 <= code <= 0x200a
    ||| code == 0x2028
    ||| code == 0x2029
    ||| code == 0x202f
    ||| code == 0x205f
    ||| code == 0x3000
}

pub open spec fn is_digit(c: char) -> bool {
    48 <= c as u32 <= 57
}

/// Where `c` first stands in `s` at or after `from`; the length if nowhere.
pub open spec fn find(s: Seq<char>, c: char, from: int) -> int
    decreases s.len() - from,
{
    if from < 0 || from >= s.len() {
        s.len() as int
    } else if s[from] == c {
        from
    } else {
        find(s, c, from + 1)
    }
}

/// The first position at or after `from` that holds no white space.
pub open spec fn first_solid(s: Seq<char>, from: int) -> int
    decreases s.len() - from,
{
    if 0 <= from < s.len() && is_white(s[from]) {
        first_solid(s, from + 1)
    } else {
        from
    }
}

/// The first position at or after `from` that holds white space; the length if none.
pub open spec fn first_white(s: Seq<char>, from: int) -> int
    decreases s.len() - from,
{
    if 0 <= from < s.len() && !is_white(s[from]) {
        first_white(s, from + 1)
    } else {
        from
    }
}

/// `s` without white space at its end.
pub open spec fn trimmed_end(s: Seq<char>) -> Seq<char>
    decreases s.len(),
{
    if s.len() > 0 && is_white(s.last()) {
        trimmed_end(s.drop_last())
    } else {
        s
    }
}

/// `s` without white space at either end.
pub open spec fn trimmed(s: Seq<char>) -> Seq<char> {
    trimmed_end(s.skip(first_solid(s, 0)))
}

/// The first word of `s`: what stands between its leading white space and the next.
pub open spec fn word(s: Seq<char>) -> Seq<char> {
    let start = first_solid(s, 0);
    s.subrange(start, first_white(s, start))
}

/// The pieces of `s` from `from` on, cut at every `sep`.
pub open spec fn pieces(s: Seq<char>, sep: char, from: int) -> Seq<Seq<char>>
    decreases s.len() - from,
    when 0 <= from <= s.len()
{
    let end = find(s, sep, from);
    proof {
        lemma_find(s, sep, from);
    }
    if end < s.len() {
        seq![s.subrange(from, end)] + pieces(s, sep, end + 1)
    } else {
        seq![s.subrange(from, end)]
    }
}

/// A line without the carriage return that stood before its line feed.
pub open spec fn without_return(s: Seq<char>) -> Seq<char> {
    if s.len() > 0 && s.last() == '\r' {
        s.drop_last()
    } else {
        s
    }
}

/// The lines of `s` from `from` on. A line ends at a line feed, which a carriage
/// return may precede; text after the last line feed is a line if there is any.
pub open spec fn lines(s: Seq<char>, from: int) -> Seq<Seq<char>>
    decreases s.len() - from,
    when 0 <= from <= s.len()
{
    let end = find(s, '\n', from);
    proof {
        lemma_find(s, '\n', from);
    }
    if from == s.len() {
        seq![]
    } else if end < s.len() {
        seq![without_return(s.subrange(from, end))] + lines(s, end + 1)
    } else {
        seq![s.subrange(from, end)]
    }
}

/// The decimal digit of a number below ten.
pub open spec fn digit(n: int) -> char {
    (48 + n) as char
}

/// The decimal digits of `n`.
pub open spec fn decimal(n: nat) -> Seq<char>
    decreases n,
{
    if n < 10 {
        seq![digit(n as int)]
    } else {
        decimal(n / 10).push(digit((n % 10) as int))
    }
}

/// The decimal digits of `n`, with a sign if it is negative.
pub open spec fn signed_decimal(n: int) -> Seq<char> {
    if n < 0 {
        seq!['-'] + decimal((-n) as nat)
    } else {
        decimal(n as nat)
    }
}

/// The number that a run of decimal digits writes.
pub open spec fn digits_value(s: Seq<char>) -> int
    decreases s.len(),
{
    if s.len() == 0 {
        0
    } else {
        10 * digits_value(s.drop_last()) + (s.last() as u32 - 48)
    }
}

pub open spec fn all_digits(s: Seq<char>) -> bool {
    forall|i: int| 0 <= i < s.len() ==> is_digit(#[trigger] s[i])
}

/// The text after a plus sign at its start, if there is one.
pub open spec fn without_plus(s: Seq<char>) -> Seq<char> {
    if s.len() > 0 && s[0] == '+' {
        s.skip(1)
    } else {
        s
    }
}

/// The number below or at `max` that `s` writes: digits, at least one, with an optional
/// plus sign before them.
pub open spec fn unsigned(s: Seq<char>, max: int) -> Option<int> {
    let body = without_plus(s);
    if body.len() > 0 && all_digits(body) && digits_value(body) <= max {
        Some(digits_value(body))
    } else {
        None
    }
}

/// A hexadecimal digit in lower case.
pub open spec fn hex_digit(n: int) -> char {
    if n < 10 {
        (48 + n) as char
    } else {
        (87 + n) as char
    }
}

/// The lowest `width` hexadecimal digits of `n`.
pub open spec fn hex(n: nat, width: nat) -> Seq<char>
    decreases width,
{
    if width == 0 {
        seq![]
    } else {
        hex(n / 16, (width - 1) as nat).push(hex_digit((n % 16) as int))
    }
}

/// The views of the strings in a list.
pub open spec fn views(list: Seq<String>) -> Seq<Seq<char>> {
    list.map_values(|s: String| s@)
}

/// `find` gives a position of the text or its end, and no earlier one holds `c`.
pub proof fn lemma_find(s: Seq<char>, c: char, from: int)
    requires
        0 <= from <= s.len(),
    ensures
        from <= find(s, c, from) <= s.len(),
        find(s, c, from) < s.len() ==> s[find(s, c, from)] == c,
        forall|i: int| from <= i < find(s, c, from) ==> s[i] != c,
    decreases s.len() - from,
{
    if from < s.len() && s[from] != c {
        lemma_find(s, c, from + 1);
    }
}

proof fn lemma_first_solid(s: Seq<char>, from: int)
    requires
        0 <= from <= s.len(),
    ensures
        from <= first_solid(s, from) <= s.len(),
    decreases s.len() - from,
{
    if from < s.len() && is_white(s[from]) {
        lemma_first_solid(s, from + 1);
    }
}

/// The characters of a text.
pub fn to_chars(text: &str) -> (r: Vec<char>)
    ensures
        r@ == text@,
{
    let mut chars: Vec<char> = Vec::new();
    for c in it: text.chars()
        invariant
            it.seq() == text@,
            chars@ == text@.take(it.index() as int),
    {
        chars.push(c);
    }
    chars
}

/// The text that a range of characters makes.
pub fn piece(chars: &[char], from: usize, to: usize) -> (r: String)
    requires
        from <= to <= chars.len(),
    ensures
        r@ == chars@.subrange(from as int, to as int),
{
    let mut out = String::new();
    let mut i: usize = from;
    while i < to
        invariant
            from <= i <= to <= chars.len(),
            out@ == chars@.subrange(from as int, i as int),
        decreases to - i,
    {
        out.push(chars[i]);
        i = i + 1;
    }
    out
}

/// Whether two texts hold the same characters.
pub fn same(a: &str, b: &str) -> (r: bool)
    ensures
        r == (a@ == b@),
{
    let x = to_chars(a);
    let y = to_chars(b);
    if x.len() != y.len() {
        return false;
    }
    let mut i: usize = 0;
    while i < x.len()
        invariant
            i <= x.len() == y.len(),
            x@ == a@,
            y@ == b@,
            forall|j: int| 0 <= j < i ==> x[j] == y[j],
        decreases x.len() - i,
    {
        if x[i] != y[i] {
            assert(a@[i as int] != b@[i as int]);
            return false;
        }
        i = i + 1;
    }
    assert(a@ =~= b@);
    true
}

/// Whether `text` begins with `start`.
pub fn starts_with(text: &str, start: &str) -> (r: bool)
    ensures
        r == start@.is_prefix_of(text@),
{
    let x = to_chars(text);
    let y = to_chars(start);
    if x.len() < y.len() {
        return false;
    }
    let mut i: usize = 0;
    while i < y.len()
        invariant
            i <= y.len() <= x.len(),
            x@ == text@,
            y@ == start@,
            forall|j: int| 0 <= j < i ==> x[j] == y[j],
        decreases y.len() - i,
    {
        if x[i] != y[i] {
            assert(text@.subrange(0, start@.len() as int)[i as int] != start@[i as int]);
            return false;
        }
        i = i + 1;
    }
    assert(start@ =~= text@.subrange(0, start@.len() as int));
    true
}

/// The first position at or after `from` that holds `c`; the length if none does.
pub fn find_char(chars: &[char], c: char, from: usize) -> (r: usize)
    requires
        from <= chars.len(),
    ensures
        r == find(chars@, c, from as int),
        from <= r <= chars.len(),
{
    let mut i: usize = from;
    while i < chars.len()
        invariant
            from <= i <= chars.len(),
            find(chars@, c, from as int) == find(chars@, c, i as int),
        decreases chars.len() - i,
    {
        if chars[i] == c {
            return i;
        }
        i = i + 1;
    }
    i
}

/// `str::split` at a character.
pub fn split(text: &str, sep: char) -> (r: Vec<String>)
    ensures
        views(r@) == pieces(text@, sep, 0),
{
    let chars = to_chars(text);
    let mut out: Vec<String> = Vec::new();
    let mut from: usize = 0;
    assert(views(out@) =~= seq![]);
    loop
        invariant
            chars@ == text@,
            from <= chars.len(),
            views(out@) + pieces(text@, sep, from as int) == pieces(text@, sep, 0),
        decreases chars.len() - from,
    {
        let end: usize = find_char(&chars, sep, from);
        let ghost before = out@;
        out.push(piece(&chars, from, end));
        proof {
            lemma_find(text@, sep, from as int);
            assert(views(out@) =~= views(before).push(text@.subrange(from as int, end as int)));
            if end < chars.len() {
                assert(views(out@) + pieces(text@, sep, end + 1) =~= views(before) + (seq![
                    text@.subrange(from as int, end as int),
                ] + pieces(text@, sep, end + 1)));
            } else {
                assert(views(out@) =~= views(before) + seq![
                    text@.subrange(from as int, end as int),
                ]);
            }
        }
        if end == chars.len() {
            return out;
        }
        from = end + 1;
    }
}

/// `str::lines`.
pub fn to_lines(text: &str) -> (r: Vec<String>)
    ensures
        views(r@) == lines(text@, 0),
{
    let chars = to_chars(text);
    let mut out: Vec<String> = Vec::new();
    let mut from: usize = 0;
    assert(views(out@) =~= seq![]);
    while from < chars.len()
        invariant
            chars@ == text@,
            from <= chars.len(),
            views(out@) + lines(text@, from as int) == lines(text@, 0),
        decreases chars.len() - from,
    {
        let end: usize = find_char(&chars, '\n', from);
        let ghost before = out@;
        let ghost whole = text@.subrange(from as int, end as int);
        proof {
            lemma_find(text@, '\n', from as int);
        }
        if end == chars.len() {
            out.push(piece(&chars, from, end));
            proof {
                assert(views(out@) =~= views(before) + seq![whole]);
            }
            return out;
        }
        let stop: usize = if end > from && chars[end - 1] == '\r' {
            end - 1
        } else {
            end
        };
        out.push(piece(&chars, from, stop));
        proof {
            assert(text@.subrange(from as int, stop as int) =~= without_return(whole));
            assert(views(out@) =~= views(before).push(without_return(whole)));
            assert(views(out@) + lines(text@, end + 1) =~= views(before) + (seq![
                without_return(whole),
            ] + lines(text@, end + 1)));
        }
        from = end + 1;
    }
    assert(views(out@) + lines(text@, from as int) =~= views(out@));
    out
}

fn white(c: char) -> (r: bool)
    ensures
        r == is_white(c),
{
    let code: u32 = c as u32;
    (9 <= code && code <= 13) || code == 32 || code == 0x85 || code == 0xa0 || code == 0x1680 || (
    0x2000 <= code && code <= 0x200a) || code == 0x2028 || code == 0x2029 || code == 0x202f || code
        == 0x205f || code == 0x3000
}

fn skip_white(chars: &[char]) -> (r: usize)
    ensures
        r == first_solid(chars@, 0),
        r <= chars.len(),
{
    let mut i: usize = 0;
    while i < chars.len() && white(chars[i])
        invariant
            i <= chars.len(),
            first_solid(chars@, 0) == first_solid(chars@, i as int),
        decreases chars.len() - i,
    {
        i = i + 1;
    }
    i
}

/// `str::trim`.
pub fn trim(text: &str) -> (r: String)
    ensures
        r@ == trimmed(text@),
{
    let chars = to_chars(text);
    let start: usize = skip_white(&chars);
    let mut end: usize = chars.len();
    proof {
        assert(text@.subrange(start as int, end as int) =~= text@.skip(start as int));
    }
    while end > start && white(chars[end - 1])
        invariant
            start <= end <= chars.len(),
            chars@ == text@,
            trimmed_end(text@.subrange(start as int, end as int)) == trimmed(text@),
        decreases end - start,
    {
        proof {
            assert(text@.subrange(start as int, end as int).drop_last() =~= text@.subrange(
                start as int,
                end - 1,
            ));
        }
        end = end - 1;
    }
    piece(&chars, start, end)
}

/// `str::split_whitespace().next()`; empty if the text holds white space alone.
pub fn first_word(text: &str) -> (r: String)
    ensures
        r@ == word(text@),
{
    let chars = to_chars(text);
    let start: usize = skip_white(&chars);
    let mut end: usize = start;
    while end < chars.len() && !white(chars[end])
        invariant
            start <= end <= chars.len(),
            chars@ == text@,
            first_white(text@, start as int) == first_white(text@, end as int),
        decreases chars.len() - end,
    {
        end = end + 1;
    }
    piece(&chars, start, end)
}

/// Appends the decimal digits of `n`.
pub fn push_decimal(out: &mut String, n: u64)
    ensures
        final(out)@ == old(out)@ + decimal(n as nat),
    decreases n,
{
    if n >= 10 {
        push_decimal(out, n / 10);
    }
    let ghost before = out@;
    let d: u8 = (n % 10) as u8;
    out.push((48 + d) as char);
    proof {
        assert(out@ =~= before + seq![digit((n % 10) as int)]);
        if n >= 10 {
            assert(out@ =~= old(out)@ + decimal((n / 10) as nat).push(digit((n % 10) as int)));
        }
    }
}

/// Appends the decimal digits of `n`, with a sign if it is negative.
pub fn push_signed(out: &mut String, n: i64)
    ensures
        final(out)@ == old(out)@ + signed_decimal(n as int),
{
    if n < 0 {
        out.push('-');
        let ghost start = out@;
        let positive: u64 = (-(n + 1)) as u64 + 1;
        push_decimal(out, positive);
        proof {
            assert(out@ =~= old(out)@ + (seq!['-'] + decimal((-n) as nat)));
        }
    } else {
        push_decimal(out, n as u64);
    }
}

/// The number at or below `max` that `text` writes.
pub fn parse_unsigned(text: &str, max: u64) -> (r: Option<u64>)
    ensures
        match r {
            Some(n) => unsigned(text@, max as int) == Some(n as int),
            None => unsigned(text@, max as int) is None,
        },
{
    let chars = to_chars(text);
    let start: usize = if chars.len() > 0 && chars[0] == '+' {
        1
    } else {
        0
    };
    let ghost body = without_plus(text@);
    assert(body =~= text@.skip(start as int));
    if start == chars.len() {
        return None;
    }
    let mut value: u64 = 0;
    let mut i: usize = start;
    while i < chars.len()
        invariant
            start <= i <= chars.len(),
            chars@ == text@,
            body == without_plus(text@),
            body == text@.skip(start as int),
            body.len() > 0,
            value == digits_value(body.take(i - start)),
            value <= max,
            forall|j: int| 0 <= j < i - start ==> is_digit(#[trigger] body[j]),
        decreases chars.len() - i,
    {
        let code: u32 = chars[i] as u32;
        assert(body[i - start] == chars[i as int]);
        if code < 48 || code > 57 {
            return None;
        }
        let d: u64 = (code - 48) as u64;
        proof {
            assert(body.take(i - start + 1).drop_last() =~= body.take(i - start));
        }
        if value > max / 10 || d > max || value * 10 > max - d {
            proof {
                if all_digits(body) {
                    lemma_digits_grow(body, i - start + 1);
                }
            }
            return None;
        }
        value = value * 10 + d;
        i = i + 1;
    }
    assert(body.take(body.len() as int) =~= body);
    Some(value)
}

/// A longer run of digits writes no smaller number.
proof fn lemma_digits_grow(s: Seq<char>, n: int)
    requires
        0 <= n <= s.len(),
        all_digits(s),
    ensures
        0 <= digits_value(s.take(n)) <= digits_value(s),
    decreases s.len(),
{
    if n == s.len() {
        assert(s.take(n) =~= s);
        if n > 0 {
            lemma_digits_grow(s.drop_last(), n - 1);
        }
    } else {
        lemma_digits_grow(s.drop_last(), n);
        assert(s.drop_last().take(n) =~= s.take(n));
    }
}

/// Appends the sixteen hexadecimal digits of `n`.
pub fn push_hex(out: &mut String, n: u64)
    ensures
        final(out)@ == old(out)@ + hex(n as nat, 16),
{
    push_hex_digits(out, n, 16);
}

/// Appends the lowest `width` hexadecimal digits of `n`.
pub fn push_hex_digits(out: &mut String, n: u64, width: u8)
    ensures
        final(out)@ == old(out)@ + hex(n as nat, width as nat),
    decreases width,
{
    if width > 0 {
        push_hex_digits(out, n / 16, width - 1);
        let ghost before = out@;
        let d: u8 = (n % 16) as u8;
        out.push(
            (if d < 10 {
                48 + d
            } else {
                87 + d
            }) as char,
        );
        proof {
            assert(out@ =~= old(out)@ + hex((n / 16) as nat, (width - 1) as nat).push(
                hex_digit((n % 16) as int),
            ));
        }
    } else {
        assert(out@ =~= old(out)@ + Seq::<char>::empty());
    }
}

proof fn lemma_solid(s: Seq<char>, from: int)
    requires
        0 <= from <= s.len(),
    ensures
        from <= first_solid(s, from) <= s.len(),
        forall|i: int| from <= i < first_solid(s, from) ==> is_white(#[trigger] s[i]),
        first_solid(s, from) < s.len() ==> !is_white(s[first_solid(s, from)]),
    decreases s.len() - from,
{
    if from < s.len() && is_white(s[from]) {
        lemma_solid(s, from + 1);
    }
}

proof fn lemma_white(s: Seq<char>, from: int)
    requires
        0 <= from <= s.len(),
    ensures
        from <= first_white(s, from) <= s.len(),
        forall|i: int| from <= i < first_white(s, from) ==> !is_white(#[trigger] s[i]),
        first_white(s, from) < s.len() ==> is_white(s[first_white(s, from)]),
    decreases s.len() - from,
{
    if from < s.len() && !is_white(s[from]) {
        lemma_white(s, from + 1);
    }
}

proof fn lemma_trimmed_end(s: Seq<char>)
    ensures
        trimmed_end(s).len() <= s.len(),
        trimmed_end(s) == s.take(trimmed_end(s).len() as int),
        forall|i: int| trimmed_end(s).len() <= i < s.len() ==> is_white(#[trigger] s[i]),
        trimmed_end(s).len() > 0 ==> !is_white(trimmed_end(s).last()),
    decreases s.len(),
{
    if s.len() > 0 && is_white(s.last()) {
        let rest = s.drop_last();
        lemma_trimmed_end(rest);
        assert(rest.take(trimmed_end(s).len() as int) =~= s.take(trimmed_end(s).len() as int));
        assert forall|i: int| trimmed_end(s).len() <= i < s.len() implies is_white(
            #[trigger] s[i],
        ) by {
            if i < rest.len() {
                assert(rest[i] == s[i]);
            }
        }
    } else {
        assert(s.take(s.len() as int) =~= s);
    }
}

/// Trimming takes white space off both ends and nothing else, and leaves none there.
pub proof fn trimming_takes_white_space_off(s: Seq<char>) -> (start: int)
    ensures
        0 <= start <= start + trimmed(s).len() <= s.len(),
        trimmed(s) == s.subrange(start, start + trimmed(s).len()),
        forall|i: int|
            0 <= i < start || start + trimmed(s).len() <= i < s.len() ==> is_white(
                #[trigger] s[i],
            ),
        trimmed(s).len() > 0 ==> !is_white(trimmed(s)[0]) && !is_white(trimmed(s).last()),
{
    let start = first_solid(s, 0);
    let rest = s.skip(start);
    lemma_solid(s, 0);
    lemma_trimmed_end(rest);
    let n = trimmed(s).len() as int;
    assert(rest.take(n) =~= s.subrange(start, start + n));
    assert forall|i: int| 0 <= i < start || start + n <= i < s.len() implies is_white(
        #[trigger] s[i],
    ) by {
        if i >= start {
            assert(rest[i - start] == s[i]);
        }
    }
    start
}

/// The first word of a text stands behind its leading white space and reaches up to the next.
pub proof fn first_words_are_between_white_space(s: Seq<char>) -> (start: int)
    ensures
        0 <= start <= start + word(s).len() <= s.len(),
        word(s) == s.subrange(start, start + word(s).len()),
        forall|i: int| 0 <= i < start ==> is_white(#[trigger] s[i]),
        forall|i: int| 0 <= i < word(s).len() ==> !is_white(#[trigger] word(s)[i]),
        start + word(s).len() < s.len() ==> is_white(s[start + word(s).len()]),
        word(s).len() == 0 ==> start == s.len(),
{
    let start = first_solid(s, 0);
    lemma_solid(s, 0);
    lemma_white(s, start);
    start
}

/// Texts with a separator between them, put together.
pub open spec fn together(parts: Seq<Seq<char>>, sep: char) -> Seq<char>
    decreases parts.len(),
{
    if parts.len() == 0 {
        seq![]
    } else if parts.len() == 1 {
        parts[0]
    } else {
        parts[0] + seq![sep] + together(parts.skip(1), sep)
    }
}

proof fn lemma_pieces(s: Seq<char>, sep: char, from: int)
    requires
        0 <= from <= s.len(),
    ensures
        pieces(s, sep, from).len() > 0,
        together(pieces(s, sep, from), sep) == s.skip(from),
        forall|i: int|
            0 <= i < pieces(s, sep, from).len() ==> !(#[trigger] pieces(s, sep, from)[i]).contains(
                sep,
            ),
    decreases s.len() - from,
{
    let end = find(s, sep, from);
    let all = pieces(s, sep, from);
    lemma_find(s, sep, from);
    let head = s.subrange(from, end);
    assert(!head.contains(sep));
    assert(all[0] == head);
    if end < s.len() {
        let rest = pieces(s, sep, end + 1);
        lemma_pieces(s, sep, end + 1);
        assert(all.skip(1) =~= rest);
        assert(head + seq![sep] + s.skip(end + 1) =~= s.skip(from));
        assert forall|i: int| 0 <= i < all.len() implies !(#[trigger] all[i]).contains(sep) by {
            if i > 0 {
                assert(all[i] == rest[i - 1]);
            }
        }
    } else {
        assert(head =~= s.skip(from));
    }
}

/// The pieces of a text hold no separator, and give the text when put together again.
pub proof fn pieces_make_up_the_text(s: Seq<char>, sep: char)
    ensures
        pieces(s, sep, 0).len() > 0,
        together(pieces(s, sep, 0), sep) == s,
        forall|i: int|
            0 <= i < pieces(s, sep, 0).len() ==> !(#[trigger] pieces(s, sep, 0)[i]).contains(sep),
{
    lemma_pieces(s, sep, 0);
    assert(s.skip(0) =~= s);
}

/// Whether a line is a piece of a text, less one carriage return before a line feed.
pub open spec fn line_of_piece(line: Seq<char>, piece: Seq<char>, ended: bool) -> bool {
    if ended && piece.len() > 0 && piece.last() == '\r' {
        line.push('\r') == piece
    } else {
        line == piece
    }
}

proof fn lemma_lines(s: Seq<char>, from: int)
    requires
        0 <= from <= s.len(),
    ensures
        ({
            let cut = pieces(s, '\n', from);
            let all = lines(s, from);
            &&& all.len() == (if cut.last().len() == 0 {
                cut.len() - 1
            } else {
                cut.len() as int
            })
            &&& forall|i: int|
                0 <= i < all.len() ==> line_of_piece(#[trigger] all[i], cut[i], i < cut.len() - 1)
        }),
    decreases s.len() - from,
{
    let cut = pieces(s, '\n', from);
    let all = lines(s, from);
    let end = find(s, '\n', from);
    lemma_find(s, '\n', from);
    if end < s.len() {
        let rest = lines(s, end + 1);
        let later = pieces(s, '\n', end + 1);
        lemma_lines(s, end + 1);
        lemma_pieces(s, '\n', end + 1);
        let head = s.subrange(from, end);
        if head.len() > 0 && head.last() == '\r' {
            assert(head.drop_last().push('\r') =~= head);
        }
        assert(cut.last() == later.last());
        assert forall|i: int| 0 <= i < all.len() implies line_of_piece(
            #[trigger] all[i],
            cut[i],
            i < cut.len() - 1,
        ) by {
            if i > 0 {
                assert(all[i] == rest[i - 1]);
                assert(cut[i] == later[i - 1]);
            }
        }
    }
}

/// The lines of a text are its pieces between line feeds, each without a carriage return at its
/// end. Nothing behind the last line feed is no line.
pub proof fn lines_are_between_line_feeds(s: Seq<char>)
    ensures
        ({
            let cut = pieces(s, '\n', 0);
            let all = lines(s, 0);
            &&& all.len() == (if cut.last().len() == 0 {
                cut.len() - 1
            } else {
                cut.len() as int
            })
            &&& forall|i: int|
                0 <= i < all.len() ==> line_of_piece(#[trigger] all[i], cut[i], i < cut.len() - 1)
        }),
{
    lemma_lines(s, 0);
}

/// The digits of a number write the number, and start with zero for zero alone.
pub proof fn decimals_write_the_number(n: nat)
    ensures
        decimal(n).len() > 0,
        all_digits(decimal(n)),
        digits_value(decimal(n)) == n,
        n > 0 ==> decimal(n)[0] != '0',
        n == 0 ==> decimal(n).len() == 1,
    decreases n,
{
    if n >= 10 {
        decimals_write_the_number(n / 10);
        let head = decimal(n / 10);
        let last = digit((n % 10) as int);
        assert(head.push(last).drop_last() =~= head);
        assert(head.push(last)[0] == head[0]);
    } else {
        assert(seq![digit(n as int)].drop_last() =~= seq![]);
        assert(digits_value(seq![]) == 0);
    }
}

/// A number that is written out is read back.
pub proof fn decimals_are_read_back(n: nat, max: int)
    requires
        n <= max,
    ensures
        unsigned(decimal(n), max) == Some(n as int),
        unsigned(seq!['+'] + decimal(n), max) == Some(n as int),
{
    decimals_write_the_number(n);
    assert(is_digit(decimal(n)[0]));
    assert((seq!['+'] + decimal(n)).skip(1) =~= decimal(n));
}

/// A number that is read is not negative and not above the limit.
pub proof fn counts_are_within_the_limit(s: Seq<char>, max: int)
    ensures
        unsigned(s, max) matches Some(n) ==> 0 <= n <= max,
{
    let body = without_plus(s);
    if all_digits(body) {
        lemma_digits_grow(body, body.len() as int);
        assert(body.take(body.len() as int) =~= body);
    }
}

/// Different numbers are written differently.
pub proof fn decimals_tell_numbers_apart(a: nat, b: nat)
    ensures
        decimal(a) == decimal(b) ==> a == b,
        signed_decimal(a as int) == decimal(a),
        a > 0 ==> signed_decimal(-a) == seq!['-'] + decimal(a),
{
    decimals_write_the_number(a);
    decimals_write_the_number(b);
}

/// Where two texts that start with digits are the same, so are the digits and what follows.
pub proof fn digits_end_where_they_end(a: Seq<char>, x: Seq<char>, b: Seq<char>, y: Seq<char>)
    requires
        all_digits(a),
        all_digits(b),
        x.len() > 0 ==> !is_digit(x[0]),
        y.len() > 0 ==> !is_digit(y[0]),
        a + x == b + y,
    ensures
        a == b,
        x == y,
{
    let s = a + x;
    if a.len() < b.len() {
        assert(s[a.len() as int] == x[0]);
        assert((b + y)[a.len() as int] == b[a.len() as int]);
        assert(is_digit(b[a.len() as int]));
    }
    if b.len() < a.len() {
        assert((b + y)[b.len() as int] == y[0]);
        assert(s[b.len() as int] == a[b.len() as int]);
        assert(is_digit(a[b.len() as int]));
    }
    assert(a =~= s.take(a.len() as int));
    assert(b =~= (b + y).take(a.len() as int));
    assert(x =~= s.skip(a.len() as int));
    assert(y =~= (b + y).skip(a.len() as int));
}

/// Where two texts that start with a word are the same, so are the words and what follows them.
pub proof fn words_end_at_a_space(a: Seq<char>, x: Seq<char>, b: Seq<char>, y: Seq<char>)
    requires
        !a.contains(' '),
        !b.contains(' '),
        x.len() > 0 && x[0] == ' ',
        y.len() > 0 && y[0] == ' ',
        a + x == b + y,
    ensures
        a == b,
        x == y,
{
    let s = a + x;
    if a.len() < b.len() {
        assert(s[a.len() as int] == x[0]);
        assert((b + y)[a.len() as int] == b[a.len() as int]);
    }
    if b.len() < a.len() {
        assert((b + y)[b.len() as int] == y[0]);
        assert(s[b.len() as int] == a[b.len() as int]);
    }
    assert(a =~= s.take(a.len() as int));
    assert(b =~= (b + y).take(a.len() as int));
    assert(x =~= s.skip(a.len() as int));
    assert(y =~= (b + y).skip(a.len() as int));
}

/// Where two texts that end with a word are the same, so are the words and what precedes them.
pub proof fn words_start_behind_a_space(x: Seq<char>, a: Seq<char>, y: Seq<char>, b: Seq<char>)
    requires
        !a.contains(' '),
        !b.contains(' '),
        x.len() > 0 && x.last() == ' ',
        y.len() > 0 && y.last() == ' ',
        x + a == y + b,
    ensures
        a == b,
        x == y,
{
    let s = x + a;
    assert(s.len() == (y + b).len());
    if x.len() < y.len() {
        assert((y + b)[y.len() - 1] == y.last());
        assert(s[y.len() - 1] == a[y.len() - 1 - x.len()]);
    }
    if y.len() < x.len() {
        assert(s[x.len() - 1] == x.last());
        assert((y + b)[x.len() - 1] == b[x.len() - 1 - y.len()]);
    }
    assert(x =~= s.take(x.len() as int));
    assert(y =~= (y + b).take(x.len() as int));
    assert(a =~= s.skip(x.len() as int));
    assert(b =~= (y + b).skip(x.len() as int));
}

/// The number that hexadecimal digits in lower case write.
pub open spec fn hex_value(s: Seq<char>) -> int
    decreases s.len(),
{
    if s.len() == 0 {
        0
    } else {
        let code = s.last() as u32;
        16 * hex_value(s.drop_last()) + if is_digit(s.last()) {
            code - 48
        } else {
            code - 87
        }
    }
}

/// All sixteen hexadecimal digits of a number write the number.
pub proof fn hexadecimals_write_the_number(n: u64)
    ensures
        hex(n as nat, 16).len() == 16,
        hex_value(hex(n as nat, 16)) == n,
        forall|i: int|
            0 <= i < 16 ==> is_digit(#[trigger] hex(n as nat, 16)[i]) || 97 <= hex(
                n as nat,
                16,
            )[i] as u32 <= 102,
{
    assert(vstd::arithmetic::power::pow(16, 16) == 0x1_0000_0000_0000_0000) by {
        reveal_with_fuel(vstd::arithmetic::power::pow, 17);
    }
    lemma_hex(n as nat, 16);
}

proof fn lemma_hex(n: nat, width: nat)
    requires
        n < vstd::arithmetic::power::pow(16, width),
    ensures
        hex(n, width).len() == width,
        hex_value(hex(n, width)) == n,
        forall|i: int|
            0 <= i < width ==> is_digit(#[trigger] hex(n, width)[i]) || 97 <= hex(
                n,
                width,
            )[i] as u32 <= 102,
    decreases width,
{
    reveal_with_fuel(vstd::arithmetic::power::pow, 2);
    if width > 0 {
        let below = vstd::arithmetic::power::pow(16, (width - 1) as nat);
        assert(vstd::arithmetic::power::pow(16, width) == 16 * below);
        lemma_hex(n / 16, (width - 1) as nat);
        let head = hex(n / 16, (width - 1) as nat);
        let last = hex_digit((n % 16) as int);
        assert(head.push(last).drop_last() =~= head);
        assert forall|i: int| 0 <= i < width implies is_digit(#[trigger] hex(n, width)[i])
            || 97 <= hex(n, width)[i] as u32 <= 102 by {
            if i < width - 1 {
                assert(hex(n, width)[i] == head[i]);
            }
        }
    }
}

} // verus!
