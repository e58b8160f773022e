//! Text the library reads and writes: decimal numbers, file names and their
//! extensions, and trimmed text.
use vstd::prelude::*;

verus! {

// ---------------------------------------------------------------------------
// Decimal numbers
// ---------------------------------------------------------------------------

/// The decimal digit `d`, for `d` below ten.
pub open spec fn digit(d: nat) -> char {
    if d == 0 {
        '0'
    } else if d == 1 {
        '1'
    } else if d == 2 {
        '2'
    } else if d == 3 {
        '3'
    } else if d == 4 {
        '4'
    } else if d == 5 {
        '5'
    } else if d == 6 {
        '6'
    } else if d == 7 {
        '7'
    } else if d == 8 {
        '8'
    } else {
        '9'
    }
}

/// `n` written in decimal, without leading zeros.
pub open spec fn decimal(n: nat) -> Seq<char>
    decreases n,
{
    if n < 10 {
        seq![digit(n)]
    } else {
        decimal(n / 10).push(digit(n % 10))
    }
}

/// Appends one decimal digit.
fn append_digit(text: &mut String, d: u64)
    requires
        d < 10,
    ensures
        final(text)@ == old(text)@.push(digit(d as nat)),
{
    let one: &str = match d {
        0 => "0",
        1 => "1",
        2 => "2",
        3 => "3",
        4 => "4",
        5 => "5",
        6 => "6",
        7 => "7",
        8 => "8",
        _ => "9",
    };
    proof {
        reveal_strlit("0");
        reveal_strlit("1");
        reveal_strlit("2");
        reveal_strlit("3");
        reveal_strlit("4");
        reveal_strlit("5");
        reveal_strlit("6");
        reveal_strlit("7");
        reveal_strlit("8");
        reveal_strlit("9");
        assert(one@ =~= seq![digit(d as nat)]);
    }
    text.append(one);
    assert(text@ =~= old(text)@.push(digit(d as nat)));
}

/// Appends `n` in decimal.
pub fn append_decimal(text: &mut String, n: u64)
    ensures
        final(text)@ == old(text)@ + decimal(n as nat),
    decreases n,
{
    if n < 10 {
        append_digit(text, n);
        assert(text@ =~= old(text)@ + decimal(n as nat));
    } else {
        append_decimal(text, n / 10);
        append_digit(text, n % 10);
        assert(text@ =~= old(text)@ + decimal(n as nat));
    }
}

/// Two numbers with the same decimal text are the same number.
pub proof fn decimal_is_injective(a: nat, b: nat)
    requires
        decimal(a) == decimal(b),
    ensures
        a == b,
    decreases a,
{
    assert(decimal(a).last() == digit(a % 10));
    assert(decimal(b).last() == digit(b % 10));
    if a < 10 {
        if b >= 10 {
            decimal_is_not_empty(b / 10);
            assert(decimal(b).len() > 1);
        }
    } else if b < 10 {
        decimal_is_not_empty(a / 10);
        assert(decimal(a).len() > 1);
    } else {
        assert(decimal(a).drop_last() =~= decimal(a / 10));
        assert(decimal(b).drop_last() =~= decimal(b / 10));
        decimal_is_injective(a / 10, b / 10);
    }
}

/// Every number has at least one digit.
pub proof fn decimal_is_not_empty(n: nat)
    ensures
        decimal(n).len() > 0,
    decreases n,
{
    if n >= 10 {
        decimal_is_not_empty(n / 10);
    }
}

// ---------------------------------------------------------------------------
// Characters and case
// ---------------------------------------------------------------------------

/// `c` with an ASCII capital made small; any other character as it is.
pub open spec fn ascii_lower(c: char) -> char {
    if 'A' <= c <= 'Z' {
        ((c as u32 + 32) as u32) as char
    } else {
        c
    }
}

/// `s` with its ASCII capitals made small.
pub open spec fn ascii_lowercase(s: Seq<char>) -> Seq<char> {
    s.map_values(|c: char| ascii_lower(c))
}

fn lower(c: char) -> (r: char)
    ensures
        r == ascii_lower(c),
{
    if 'A' <= c && c <= 'Z' {
        let code: u8 = c as u8;
        (code + 32) as char
    } else {
        c
    }
}

/// The characters of an optional text.
pub open spec fn text_view(text: Option<String>) -> Option<Seq<char>> {
    match text {
        Some(t) => Some(t@),
        None => None,
    }
}

/// The characters of a text.
pub fn characters(text: &str) -> (r: Vec<char>)
    ensures
        r@ == text@,
{
    let mut out: Vec<char> = Vec::new();
    for c in it: text.chars()
        invariant
            out@ == it.seq().take(it.index() as int),
    {
        out.push(c);
    }
    out
}

/// Whether `text`, with its ASCII capitals made small, reads `wanted`.
pub fn reads_lowercased(text: &str, wanted: &str) -> (r: bool)
    ensures
        r == (ascii_lowercase(text@) == wanted@),
{
    let t: Vec<char> = characters(text);
    let w: Vec<char> = characters(wanted);
    if t.len() != w.len() {
        assert(ascii_lowercase(text@).len() == t@.len());
        return false;
    }
    let mut i: usize = 0;
    while i < t.len()
        invariant
            i <= t@.len(),
            t@.len() == w@.len(),
            t@ == text@,
            w@ == wanted@,
            forall|k: int| 0 <= k < i ==> ascii_lower(t@[k]) == w@[k],
        decreases t@.len() - i,
    {
        if lower(t[i]) != w[i] {
            assert(ascii_lowercase(text@)[i as int] != wanted@[i as int]);
            return false;
        }
        i = i + 1;
    }
    assert(ascii_lowercase(text@) =~= wanted@);
    true
}

// ---------------------------------------------------------------------------
// Trimming
// ---------------------------------------------------------------------------

/// The characters of the Unicode property `White_Space`.
pub open spec fn is_white_space(c: char) -> bool {
    ||| '\u{9}' <= c <= '\u{d}'
    ||| c == '\u{20}'
    ||| c == '\u{85}'
    ||| c == '\u{a0}'
    ||| c == '\u{1680}'
    ||| '\u{2000}' <= c <= '\u{200a}'
    ||| c == '\u{2028}'
    ||| c == '\u{2029}'
    ||| c == '\u{202f}'
    ||| c == '\u{205f}'
    ||| c == '\u{3000}'
}

fn white_space(c: char) -> (r: bool)
    ensures
        r == is_white_space(c),
{
    ('\u{9}' <= c && c <= '\u{d}') || c == '\u{20}' || c == '\u{85}' || c == '\u{a0}' || c
        == '\u{1680}' || ('\u{2000}' <= c && c <= '\u{200a}') || c == '\u{2028}' || c
        == '\u{2029}' || c == '\u{202f}' || c == '\u{205f}' || c == '\u{3000}'
}

/// What may be trimmed off a text: white space, or NUL characters.
#[derive(Clone, Copy, PartialEq, Eq, Structural, Debug)]
pub enum Trimmed {
    WhiteSpace,
    Nul,
}

impl Trimmed {
    /// Whether `c` is one of the characters that are trimmed off.
    pub open spec fn takes(self, c: char) -> bool {
        match self {
            Trimmed::WhiteSpace => is_white_space(c),
            Trimmed::Nul => c == '\0',
        }
    }

    fn covers(self, c: char) -> (r: bool)
        ensures
            r == self.takes(c),
    {
        match self {
            Trimmed::WhiteSpace => white_space(c),
            Trimmed::Nul => c == '\0',
        }
    }
}

/// `s` without the trimmed characters at its front.
pub open spec fn trim_front(s: Seq<char>, off: Trimmed) -> Seq<char>
    decreases s.len(),
{
    if s.len() > 0 && off.takes(s.first()) {
        trim_front(s.drop_first(), off)
    } else {
        s
    }
}

/// `s` without the trimmed characters at its back.
pub open spec fn trim_back(s: Seq<char>, off: Trimmed) -> Seq<char>
    decreases s.len(),
{
    if s.len() > 0 && off.takes(s.last()) {
        trim_back(s.drop_last(), off)
    } else {
        s
    }
}

/// `s` without the trimmed characters at its two ends.
pub open spec fn trimmed(s: Seq<char>, off: Trimmed) -> Seq<char> {
    trim_back(trim_front(s, off), off)
}

/// A copy of `text` with the characters that `off` stands for taken off both ends.
pub fn trim(text: &str, off: Trimmed) -> (r: String)
    ensures
        r@ == trimmed(text@, off),
{
    let t: Vec<char> = characters(text);
    let mut from: usize = 0;
    assert(t@.skip(0) =~= t@);
    while from < t.len() && off.covers(t[from])
        invariant
            from <= t@.len(),
            trim_front(t@, off) == trim_front(t@.skip(from as int), off),
        ensures
            from <= t@.len(),
            trim_front(t@, off) == t@.skip(from as int),
        decreases t@.len() - from,
    {
        assert(t@.skip(from as int).drop_first() =~= t@.skip(from + 1));
        from = from + 1;
    }
    let ghost front: Seq<char> = t@.skip(from as int);
    let mut to: usize = t.len();
    assert(front =~= t@.subrange(from as int, to as int));
    while from < to && off.covers(t[to - 1])
        invariant
            from <= to <= t@.len(),
            trim_back(front, off) == trim_back(t@.subrange(from as int, to as int), off),
        ensures
            from <= to <= t@.len(),
            trim_back(front, off) == t@.subrange(from as int, to as int),
        decreases to,
    {
        assert(t@.subrange(from as int, to as int).drop_last() =~= t@.subrange(
            from as int,
            to - 1,
        ));
        to = to - 1;
    }
    text.substring_char(from, to).to_owned()
}

// ---------------------------------------------------------------------------
// File names
// ---------------------------------------------------------------------------

/// The last position of `c` in `s`, or minus one.
pub open spec fn last_index_of(s: Seq<char>, c: char) -> int
    decreases s.len(),
{
    if s.len() == 0 {
        -1
    } else if s.last() == c {
        s.len() - 1
    } else {
        last_index_of(s.drop_last(), c)
    }
}

/// `last_index_of` is a position of `c` in `s` with no `c` behind it, or minus
/// one where `s` holds no `c`.
pub proof fn last_index_of_is_last(s: Seq<char>, c: char)
    ensures
        -1 <= last_index_of(s, c) < s.len(),
        last_index_of(s, c) >= 0 ==> s[last_index_of(s, c)] == c,
        forall|i: int| last_index_of(s, c) < i < s.len() ==> s[i] != c,
    decreases s.len(),
{
    if s.len() > 0 && s.last() != c {
        last_index_of_is_last(s.drop_last(), c);
        assert forall|i: int| last_index_of(s, c) < i < s.len() implies s[i] != c by {
            if i < s.len() - 1 {
                assert(s.drop_last()[i] != c);
            }
        }
    }
}

/// Where the stem of a file name ends: at the last dot, unless that dot opens
/// the name, there is none, or the name is two dots.
pub open spec fn stem_end(name: Seq<char>) -> int {
    if last_index_of(name, '.') <= 0 || name == seq!['.', '.'] {
        name.len() as int
    } else {
        last_index_of(name, '.')
    }
}

/// The part of a file name before its extension.
pub open spec fn stem_of(name: Seq<char>) -> Seq<char> {
    name.take(stem_end(name))
}

/// The extension of a file name, without its dot.
pub open spec fn extension_of(name: Seq<char>) -> Option<Seq<char>> {
    if stem_end(name) == name.len() {
        None
    } else {
        Some(name.skip(stem_end(name) + 1))
    }
}

/// A name with an extension is its stem, a dot and its extension; one without
/// is its stem.
pub proof fn name_is_stem_and_extension(name: Seq<char>)
    ensures
        match extension_of(name) {
            Some(e) => name == stem_of(name).push('.') + e,
            None => name == stem_of(name),
        },
{
    last_index_of_is_last(name, '.');
    match extension_of(name) {
        Some(e) => {
            assert(name =~= stem_of(name).push('.') + e);
        },
        None => {
            assert(name =~= stem_of(name));
        },
    }
}

/// Splits a file name into its stem and its extension.
pub fn split_name(name: &str) -> (r: (String, Option<String>))
    ensures
        r.0@ == stem_of(name@),
        r.1 is Some <==> extension_of(name@) is Some,
        r.1 matches Some(e) ==> extension_of(name@) == Some(e@),
{
    let t: Vec<char> = characters(name);
    let n: usize = t.len();
    let mut end: usize = n;
    assert(t@.take(n as int) =~= t@);
    while end > 0 && t[end - 1] != '.'
        invariant
            end <= n == t@.len(),
            last_index_of(t@, '.') == last_index_of(t@.take(end as int), '.'),
        ensures
            end <= n,
            last_index_of(t@, '.') == end - 1,
        decreases end,
    {
        assert(t@.take(end as int).drop_last() =~= t@.take(end - 1));
        end = end - 1;
    }
    let two_dots: bool = n == 2 && t[0] == '.' && t[1] == '.';
    assert(two_dots == (name@ =~= seq!['.', '.']));
    if end <= 1 || two_dots {
        assert(stem_of(name@) =~= name@);
        (name.to_owned(), None)
    } else {
        let stem: &str = name.substring_char(0, end - 1);
        let extension: &str = name.substring_char(end, n);
        assert(stem@ =~= stem_of(name@));
        assert(extension@ =~= name@.skip(end as int));
        (stem.to_owned(), Some(extension.to_owned()))
    }
}

/// Greets a user by name.
pub fn greet(name: &str) -> (r: String)
    ensures
        r@ == "Hello, "@ + name@ + "! You've been greeted from Rust!"@,
{
    let mut text: String = "Hello, ".to_owned();
    text.append(name);
    text.append("! You've been greeted from Rust!");
    text
}

// ---------------------------------------------------------------------------
// What texts say
// ---------------------------------------------------------------------------

/// The number that a text of decimal digits stands for, read from the left.
pub open spec fn number_read(text: Seq<char>) -> int
    decreases text.len(),
{
    if text.len() == 0 {
        0
    } else {
        10 * number_read(text.drop_last()) + (text.last() as int - 48)
    }
}

/// A number in decimal reads as that number, digit by digit, and opens with a zero only
/// where it is zero.
pub proof fn decimal_reads_as_the_number(n: nat)
    ensures
        number_read(decimal(n)) == n,
        forall|i: int| 0 <= i < decimal(n).len() ==> 48 <= #[trigger] decimal(n)[i] as int <= 57,
        decimal(n).len() > 0,
        n > 0 ==> decimal(n)[0] as int > 48,
        n == 0 ==> decimal(n).len() == 1,
    decreases n,
{
    if n >= 10 {
        decimal_reads_as_the_number(n / 10);
        let (front, all) = (decimal(n / 10), decimal(n));
        assert(all.drop_last() =~= front);
        assert forall|i: int| 0 <= i < all.len() implies 48 <= #[trigger] all[i] as int <= 57 by {
            if i < front.len() {
                assert(all[i] == front[i]);
            }
        }
        assert(all[0] == front[0]);
    } else {
        assert(number_read(decimal(n).drop_last()) == 0);
    }
}

/// The capitals of ASCII are made small, 32 codes further on, and no other character
/// changes.
pub proof fn only_ascii_capitals_are_made_small(c: char)
    ensures
        65 <= c as int <= 90 ==> ascii_lower(c) as int == c as int + 32,
        !(65 <= c as int <= 90) ==> ascii_lower(c) == c,
        ascii_lower(ascii_lower(c)) == ascii_lower(c),
{
}

/// White space, by the codes of its characters.
pub proof fn white_space_by_code(c: char)
    ensures
        ({
            let code = c as int;
            is_white_space(c) <==> 9 <= code <= 13 || code == 32 || code == 133 || code == 160
                || code == 5760 || 8192 <= code <= 8202 || code == 8232 || code == 8233 || code
                == 8239 || code == 8287 || code == 12288
        }),
        Trimmed::WhiteSpace.takes(c) == is_white_space(c),
        Trimmed::Nul.takes(c) <==> c as int == 0,
{
}

/// Trimming takes characters off the two ends and no others: what is left is a part of
/// the text, all that stands before and behind it is of the kind that is trimmed, and
/// neither of its own ends is.
pub proof fn trimming_takes_off_the_ends(s: Seq<char>, off: Trimmed) -> (r: (int, int))
    ensures
        0 <= r.0 <= r.1 <= s.len(),
        trimmed(s, off) == s.subrange(r.0, r.1),
        forall|i: int| 0 <= i < r.0 || r.1 <= i < s.len() ==> off.takes(#[trigger] s[i]),
        r.0 < r.1 ==> !off.takes(s[r.0]) && !off.takes(s[r.1 - 1]),
{
    let a = lemma_trim_front(s, off);
    let front = trim_front(s, off);
    let b = lemma_trim_back(front, off);
    assert(trimmed(s, off) =~= s.subrange(a, a + b));
    assert forall|i: int| 0 <= i < a || a + b <= i < s.len() implies off.takes(
        #[trigger] s[i],
    ) by {
        if i >= a {
            assert(front[i - a] == s[i]);
        }
    }
    if b > 0 {
        assert(front[0] == s[a]);
        assert(front[b - 1] == s[a + b - 1]);
    }
    (a, a + b)
}

proof fn lemma_trim_front(s: Seq<char>, off: Trimmed) -> (a: int)
    ensures
        0 <= a <= s.len(),
        trim_front(s, off) == s.skip(a),
        forall|i: int| 0 <= i < a ==> off.takes(#[trigger] s[i]),
        a < s.len() ==> !off.takes(s[a]),
    decreases s.len(),
{
    if s.len() > 0 && off.takes(s.first()) {
        let b = lemma_trim_front(s.drop_first(), off);
        assert(s.drop_first().skip(b) =~= s.skip(b + 1));
        assert forall|i: int| 0 <= i < b + 1 implies off.takes(#[trigger] s[i]) by {
            if i > 0 {
                assert(s.drop_first()[i - 1] == s[i]);
            }
        }
        b + 1
    } else {
        assert(s.skip(0) =~= s);
        0
    }
}

proof fn lemma_trim_back(s: Seq<char>, off: Trimmed) -> (b: int)
    ensures
        0 <= b <= s.len(),
        trim_back(s, off) == s.take(b),
        forall|i: int| b <= i < s.len() ==> off.takes(#[trigger] s[i]),
        b > 0 ==> !off.takes(s[b - 1]),
    decreases s.len(),
{
    if s.len() > 0 && off.takes(s.last()) {
        let b = lemma_trim_back(s.drop_last(), off);
        assert(s.drop_last().take(b) =~= s.take(b));
        assert forall|i: int| b <= i < s.len() implies off.takes(#[trigger] s[i]) by {
            if i < s.len() - 1 {
                assert(s.drop_last()[i] == s[i]);
            }
        }
        b
    } else {
        assert(s.take(s.len() as int) =~= s);
        s.len() as int
    }
}

/// A stem with a dot and an extension behind it has that extension, whatever dots the
/// stem holds; a dot at the front of a name opens no extension.
pub proof fn extension_follows_the_last_dot(stem: Seq<char>, ext: Seq<char>)
    requires
        stem.len() > 0,
        !ext.contains('.'),
        stem.len() > 1 || ext.len() > 0 || stem[0] != '.',
    ensures
        extension_of(stem.push('.') + ext) == Some(ext),
        stem_of(stem.push('.') + ext) == stem,
        extension_of(seq!['.'] + ext) is None,
        extension_of(ext) is None,
{
    let name = stem.push('.') + ext;
    last_index_of_is_last(name, '.');
    assert(name[stem.len() as int] == '.');
    assert forall|i: int| stem.len() < i < name.len() implies name[i] != '.' by {
        assert(name[i] == ext[i - stem.len() - 1]);
    }
    assert(last_index_of(name, '.') == stem.len());
    if name == seq!['.', '.'] {
        assert(name.len() == 2 && name[0] == '.');
    }
    assert(name.skip(stem.len() as int + 1) =~= ext);
    assert(name.take(stem.len() as int) =~= stem);
    let hidden = seq!['.'] + ext;
    last_index_of_is_last(hidden, '.');
    assert forall|i: int| 0 < i < hidden.len() implies hidden[i] != '.' by {
        assert(hidden[i] == ext[i - 1]);
    }
    last_index_of_is_last(ext, '.');
}

} // verus!
