//! Text: characters, words, lines and how many cells they take.
//!
//! Everything here works on characters. How wide a character or a string is,
//! is the `unicode-width` crate's answer and nothing else's.

use unicode_width::{UnicodeWidthChar, UnicodeWidthStr};
use vstd::prelude::*;

use crate::cells::fit;
use crate::views::views;

verus! {

/// What `unicode_width::UnicodeWidthStr::width` answers for a string: its
/// displayed width in columns.
pub uninterp spec fn display_width(s: Seq<char>) -> nat;

/// What `unicode_width::UnicodeWidthChar::width` answers for a character: its
/// displayed width in columns, `None` for a control character.
pub uninterp spec fn glyph_width(c: char) -> Option<nat>;

/// Calls `unicode_width::UnicodeWidthStr::width`. Claimed: the answer is a
/// function of the characters alone.
#[verifier::external_body]
fn width_of_str(s: &str) -> (r: usize)
    ensures
        r as nat == display_width(s@),
{
    UnicodeWidthStr::width(s)
}

/// Calls `unicode_width::UnicodeWidthChar::width`. Claimed: the answer is a
/// function of the character alone, and a printable ASCII character is one
/// column wide.
#[verifier::external_body]
fn width_of_char(c: char) -> (r: Option<usize>)
    ensures
        ' ' <= c && c <= '~' ==> r == Some(1usize),
        (match r {
            Some(n) => glyph_width(c) == Some(n as nat),
            None => glyph_width(c) == None::<nat>,
        }),
{
    UnicodeWidthChar::width(c)
}

/// `String::push` appends one character.
pub assume_specification[ String::push ](s: &mut String, c: char)
    ensures
        final(s)@ == old(s)@.push(c),
;

/// How many cells a string takes.
pub open spec fn cells_of(s: Seq<char>) -> i32 {
    fit(display_width(s) as int)
}

/// How many cells a character takes; a control character takes none.
pub open spec fn char_cells_of(c: char) -> i32 {
    match glyph_width(c) {
        Some(n) => fit(n as int),
        None => 0,
    }
}

/// See [`cells_of`].
pub fn str_cells(s: &str) -> (r: i32)
    ensures
        r == cells_of(s@),
        r >= 0,
{
    let n: usize = width_of_str(s);
    if n > 0x7fff_ffff {
        i32::MAX
    } else {
        n as i32
    }
}

/// See [`char_cells_of`].
pub fn char_cells(c: char) -> (r: i32)
    ensures
        ' ' <= c && c <= '~' ==> r == 1,
        r == char_cells_of(c),
        r >= 0,
{
    match width_of_char(c) {
        Some(n) => if n > 0x7fff_ffff {
            i32::MAX
        } else {
            n as i32
        },
        None => 0,
    }
}

/// The characters of a string.
pub fn chars_of(s: &str) -> (r: Vec<char>)
    ensures
        r@ == s@,
{
    let mut out: Vec<char> = Vec::new();
    for c in it: s.chars()
        invariant
            it.seq() == s@,
            out@ == s@.take(it.index() as int),
    {
        proof {
            assert(s@.take(it.index() + 1) =~= s@.take(it.index() as int).push(c));
        }
        out.push(c);
    }
    proof {
        assert(s@.take(s@.len() as int) =~= s@);
    }
    out
}

/// The string of the characters `from..to`.
pub fn slice_text(chars: &Vec<char>, from: usize, to: usize) -> (r: String)
    requires
        from <= to <= chars@.len(),
    ensures
        r@ == chars@.subrange(from as int, to as int),
{
    let mut out: String = String::new();
    let mut i: usize = from;
    proof {
        assert(chars@.subrange(from as int, from as int) =~= Seq::<char>::empty());
    }
    while i < to
        invariant
            from <= i <= to <= chars@.len(),
            out@ == chars@.subrange(from as int, i as int),
        decreases to - i,
    {
        proof {
            assert(chars@.subrange(from as int, i + 1) =~= chars@.subrange(
                from as int,
                i as int,
            ).push(chars@[i as int]));
        }
        out.push(chars[i]);
        i += 1;
    }
    out
}

/// The string of all of them.
pub fn text_of(chars: &Vec<char>) -> (r: String)
    ensures
        r@ == chars@,
{
    proof {
        assert(chars@.subrange(0, chars@.len() as int) =~= chars@);
    }
    slice_text(chars, 0, chars.len())
}

/// An owned copy.
pub fn owned(s: &str) -> (r: String)
    ensures
        r@ == s@,
{
    s.to_owned()
}

/// `n` copies of one character; none when `n` is negative.
pub open spec fn repeated(c: char, n: int) -> Seq<char> {
    Seq::new(
        if n > 0 {
            n as nat
        } else {
            0
        },
        |i: int| c,
    )
}

/// See [`repeated`].
pub fn repeat(c: char, n: i32) -> (r: String)
    ensures
        r@ == repeated(c, n as int),
{
    let mut out: String = String::new();
    let mut i: i32 = 0;
    while i < n
        invariant
            0 <= i,
            n > 0 ==> i <= n,
            n <= 0 ==> i == 0,
            out@ =~= repeated(c, i as int),
        decreases n - i,
    {
        out.push(c);
        i += 1;
    }
    proof {
        assert(out@ =~= repeated(c, n as int));
    }
    out
}

/// Are these the same characters?
pub fn same(a: &str, b: &str) -> (r: bool)
    ensures
        r == (a@ == b@),
{
    let x: Vec<char> = chars_of(a);
    let y: Vec<char> = chars_of(b);
    if x.len() != y.len() {
        return false;
    }
    let mut i: usize = 0;
    while i < x.len()
        invariant
            i <= x@.len(),
            x@.len() == y@.len(),
            x@ == a@,
            y@ == b@,
            forall|j: int| 0 <= j < i ==> x@[j] == y@[j],
        decreases x@.len() - i,
    {
        if x[i] != y[i] {
            return false;
        }
        i += 1;
    }
    proof {
        assert(x@ =~= y@);
    }
    true
}

/// A character's code, ASCII capitals counted as their small letters.
pub open spec fn folded(c: char) -> int {
    if 'A' <= c && c <= 'Z' {
        c as int + 32
    } else {
        c as int
    }
}

fn fold(c: char) -> (r: u32)
    ensures
        r == folded(c),
{
    if 'A' <= c && c <= 'Z' {
        c as u32 + 32
    } else {
        c as u32
    }
}

/// Do these spell the same word, ASCII case aside?
pub open spec fn alike(a: Seq<char>, b: Seq<char>) -> bool {
    a.len() == b.len() && forall|i: int|
        0 <= i < a.len() ==> folded(#[trigger] a[i]) == folded(b[i])
}

/// See [`alike`].
pub fn same_word(a: &str, b: &str) -> (r: bool)
    ensures
        r == alike(a@, b@),
{
    let x: Vec<char> = chars_of(a);
    let y: Vec<char> = chars_of(b);
    if x.len() != y.len() {
        return false;
    }
    let mut i: usize = 0;
    while i < x.len()
        invariant
            i <= x@.len(),
            x@.len() == y@.len(),
            x@ == a@,
            y@ == b@,
            forall|j: int| 0 <= j < i ==> folded(#[trigger] x@[j]) == folded(y@[j]),
        decreases x@.len() - i,
    {
        if fold(x[i]) != fold(y[i]) {
            proof {
                assert(folded(a@[i as int]) != folded(b@[i as int]));
            }
            return false;
        }
        i += 1;
    }
    true
}

/// Where a line may be broken: HTML whitespace, and nothing else.
#[verifier::allow_in_spec]
pub fn is_html_space(c: char) -> (r: bool)
    returns
        (c == ' ' || c == '\t' || c == '\n' || c == '\r' || c == '\u{0C}'),
{
    c == ' ' || c == '\t' || c == '\n' || c == '\r' || c == '\u{0C}'
}

/// Unicode's `White_Space` property.
#[verifier::allow_in_spec]
pub fn is_white_space(c: char) -> (r: bool)
    returns
        (('\u{9}' <= c && c <= '\u{D}') || c == ' ' || c == '\u{85}' || c == '\u{A0}' || c
            == '\u{1680}' || ('\u{2000}' <= c && c <= '\u{200A}') || c == '\u{2028}' || c
            == '\u{2029}' || c == '\u{202F}' || c == '\u{205F}' || c == '\u{3000}'),
{
    ('\u{9}' <= c && c <= '\u{D}') || c == ' ' || c == '\u{85}' || c == '\u{A0}' || c
        == '\u{1680}' || ('\u{2000}' <= c && c <= '\u{200A}') || c == '\u{2028}' || c
        == '\u{2029}' || c == '\u{202F}' || c == '\u{205F}' || c == '\u{3000}'
}

/// Is there nothing here but HTML whitespace?
pub open spec fn blank(s: Seq<char>) -> bool {
    forall|i: int| 0 <= i < s.len() ==> is_html_space(#[trigger] s[i])
}

/// See [`blank`].
pub fn is_blank(s: &str) -> (r: bool)
    ensures
        r == blank(s@),
{
    let x: Vec<char> = chars_of(s);
    let mut i: usize = 0;
    while i < x.len()
        invariant
            i <= x@.len(),
            x@ == s@,
            forall|j: int| 0 <= j < i ==> is_html_space(#[trigger] x@[j]),
        decreases x@.len() - i,
    {
        if !is_html_space(x[i]) {
            proof {
                assert(!is_html_space(s@[i as int]));
            }
            return false;
        }
        i += 1;
    }
    true
}

/// Without the white space at its start.
pub open spec fn trimmed_start(s: Seq<char>) -> Seq<char>
    decreases s.len(),
{
    if s.len() > 0 && is_white_space(s[0]) {
        trimmed_start(s.drop_first())
    } else {
        s
    }
}

/// Without the white space at its end.
pub open spec fn trimmed_end(s: Seq<char>) -> Seq<char>
    decreases s.len(),
{
    if s.len() > 0 && is_white_space(s.last()) {
        trimmed_end(s.drop_last())
    } else {
        s
    }
}

/// Without the white space at either end.
pub open spec fn trimmed(s: Seq<char>) -> Seq<char> {
    trimmed_end(trimmed_start(s))
}

/// See [`trimmed`].
pub fn trim(s: &str) -> (r: String)
    ensures
        r@ == trimmed(s@),
{
    let x: Vec<char> = chars_of(s);
    let n: usize = x.len();
    let mut from: usize = 0;
    proof {
        assert(x@.subrange(0, n as int) =~= x@);
    }
    while from < n && is_white_space(x[from])
        invariant
            from <= n == x@.len(),
            trimmed_start(x@) == trimmed_start(x@.subrange(from as int, n as int)),
        decreases n - from,
    {
        proof {
            assert(x@.subrange(from as int, n as int).drop_first() =~= x@.subrange(
                from + 1,
                n as int,
            ));
        }
        from += 1;
    }
    let mut to: usize = n;
    let ghost body = x@.subrange(from as int, n as int);
    proof {
        assert(body == trimmed_start(x@));
    }
    while from < to && is_white_space(x[to - 1])
        invariant
            from <= to <= n == x@.len(),
            trimmed_end(body) == trimmed_end(x@.subrange(from as int, to as int)),
        decreases to - from,
    {
        proof {
            assert(x@.subrange(from as int, to as int).drop_last() =~= x@.subrange(
                from as int,
                to - 1,
            ));
        }
        to -= 1;
    }
    slice_text(&x, from, to)
}

pub open spec fn is_digit(c: char) -> bool {
    '0' <= c && c <= '9'
}

/// One or more decimal digits and nothing else.
pub open spec fn all_digits(s: Seq<char>) -> bool {
    s.len() > 0 && forall|i: int| 0 <= i < s.len() ==> is_digit(#[trigger] s[i])
}

/// The number that decimal digits spell.
pub open spec fn digits_value(s: Seq<char>) -> nat
    decreases s.len(),
{
    if s.len() == 0 {
        0
    } else {
        digits_value(s.drop_last()) * 10 + (s.last() as nat - '0' as nat) as nat
    }
}

/// A whole number of at most `max`, with an optional plus sign.
pub open spec fn unsigned(s: Seq<char>, max: nat) -> Option<nat> {
    let digits = if s.len() > 0 && s[0] == '+' {
        s.drop_first()
    } else {
        s
    };
    if all_digits(digits) && digits_value(digits) <= max {
        Some(digits_value(digits))
    } else {
        None
    }
}

/// An `i32` in decimal, with an optional sign.
pub open spec fn signed(s: Seq<char>) -> Option<int> {
    if s.len() > 0 && s[0] == '-' {
        let digits = s.drop_first();
        if all_digits(digits) && digits_value(digits) <= 0x8000_0000 {
            Some(-(digits_value(digits) as int))
        } else {
            None
        }
    } else {
        match unsigned(s, 0x7fff_ffff) {
            Some(n) => Some(n as int),
            None => None,
        }
    }
}

/// The digits from `from` on, as a number of at most `u64::MAX`.
fn parse_digits(x: &Vec<char>, from: usize) -> (r: Option<u64>)
    requires
        from <= x@.len(),
    ensures
        ({
            let s = x@.subrange(from as int, x@.len() as int);
            match r {
                Some(n) => all_digits(s) && digits_value(s) == n,
                None => !all_digits(s) || digits_value(s) > u64::MAX,
            }
        }),
{
    let ghost s = x@.subrange(from as int, x@.len() as int);
    let mut value: u64 = 0;
    let mut over: bool = false;
    let mut i: usize = from;
    if from == x.len() {
        return None;
    }
    proof {
        assert(s.take(0) =~= Seq::<char>::empty());
    }
    while i < x.len()
        invariant
            from <= i <= x@.len(),
            s == x@.subrange(from as int, x@.len() as int),
            forall|j: int| 0 <= j < i - from ==> is_digit(#[trigger] s[j]),
            !over ==> value == digits_value(s.take(i - from)),
            over ==> digits_value(s.take(i - from)) > u64::MAX,
        decreases x@.len() - i,
    {
        let c: char = x[i];
        if !('0' <= c && c <= '9') {
            proof {
                assert(s[i - from] == c);
            }
            return None;
        }
        let d: u64 = (c as u32 - '0' as u32) as u64;
        proof {
            assert(s.take(i + 1 - from).drop_last() =~= s.take(i - from));
            assert(s.take(i + 1 - from).last() == c);
            assert(s[i - from] == c);
        }
        if !over {
            if value > (u64::MAX - d) / 10 {
                over = true;
            } else {
                value = value * 10 + d;
            }
        }
        i += 1;
    }
    proof {
        assert(s.take(s.len() as int) =~= s);
    }
    if over {
        None
    } else {
        Some(value)
    }
}

/// A decimal `u64`. See [`unsigned`].
pub fn parse_u64(s: &str) -> (r: Option<u64>)
    ensures
        (match r {
            Some(n) => unsigned(s@, u64::MAX as nat) == Some(n as nat),
            None => unsigned(s@, u64::MAX as nat) == None::<nat>,
        }),
{
    let x: Vec<char> = chars_of(s);
    if x.len() > 0 && x[0] == '+' {
        proof {
            assert(x@.subrange(1, x@.len() as int) =~= s@.drop_first());
        }
        parse_digits(&x, 1)
    } else {
        proof {
            assert(x@.subrange(0, x@.len() as int) =~= s@);
        }
        parse_digits(&x, 0)
    }
}

/// A decimal `i32`. See [`signed`].
pub fn parse_i32(s: &str) -> (r: Option<i32>)
    ensures
        (match r {
            Some(n) => signed(s@) == Some(n as int),
            None => signed(s@) == None::<int>,
        }),
{
    let x: Vec<char> = chars_of(s);
    if x.len() > 0 && x[0] == '-' {
        proof {
            assert(x@.subrange(1, x@.len() as int) =~= s@.drop_first());
        }
        match parse_digits(&x, 1) {
            Some(n) => if n <= 0x8000_0000 {
                Some((0 - n as i64) as i32)
            } else {
                None
            },
            None => None,
        }
    } else {
        match parse_u64(s) {
            Some(n) => if n <= 0x7fff_ffff {
                Some(n as i32)
            } else {
                None
            },
            None => None,
        }
    }
}

/// The word being read, if it has begun.
pub open spec fn finished(word: Seq<char>) -> Seq<Seq<char>> {
    if word.len() > 0 {
        seq![word]
    } else {
        Seq::empty()
    }
}

/// What separates words.
#[derive(Clone, Copy, PartialEq, Eq, Debug, Structural)]
pub enum Spaces {
    /// HTML whitespace.
    Html,
    /// Anything Unicode calls white space.
    Unicode,
}

impl Spaces {
    /// Does this character separate words?
    #[verifier::allow_in_spec]
    pub fn holds(self, c: char) -> (r: bool)
        returns
            (match self {
                Spaces::Html => is_html_space(c),
                Spaces::Unicode => is_white_space(c),
            }),
    {
        match self {
            Spaces::Html => is_html_space(c),
            Spaces::Unicode => is_white_space(c),
        }
    }
}

/// The words of `s` from character `i` on, with `word` already read.
pub open spec fn words_from(s: Seq<char>, by: Spaces, i: int, word: Seq<char>) -> Seq<Seq<char>>
    decreases s.len() - i,
{
    if i >= s.len() {
        finished(word)
    } else if by.holds(s[i]) {
        finished(word) + words_from(s, by, i + 1, Seq::empty())
    } else {
        words_from(s, by, i + 1, word.push(s[i]))
    }
}

/// The words of a text: what is left between runs of spaces.
pub open spec fn words_of(s: Seq<char>, by: Spaces) -> Seq<Seq<char>> {
    words_from(s, by, 0, Seq::empty())
}

/// See [`words_of`].
pub fn words(s: &str, by: Spaces) -> (r: Vec<String>)
    ensures
        views(r@) == words_of(s@, by),
{
    broadcast use crate::views::group_views;

    let x: Vec<char> = chars_of(s);
    let mut out: Vec<String> = Vec::new();
    let mut word: String = String::new();
    let mut begun: bool = false;
    let mut i: usize = 0;
    proof {
        assert(views(out@) + words_of(s@, by) =~= words_of(s@, by));
    }
    while i < x.len()
        invariant
            i <= x@.len(),
            x@ == s@,
            begun == (word@.len() > 0),
            views(out@) + words_from(s@, by, i as int, word@) == words_of(s@, by),
        decreases x@.len() - i,
    {
        let c: char = x[i];
        let ghost before = views(out@);
        let ghost read = word@;
        if by.holds(c) {
            if begun {
                out.push(word);
                proof {
                    assert(before.push(read) + words_from(s@, by, i + 1, Seq::empty()) =~= before + (
                    finished(read) + words_from(s@, by, i + 1, Seq::empty())));
                }
            } else {
                proof {
                    assert(before + words_from(s@, by, i + 1, Seq::empty()) =~= before + (finished(read)
                        + words_from(s@, by, i + 1, Seq::empty())));
                }
            }
            word = String::new();
            begun = false;
        } else {
            word.push(c);
            begun = true;
        }
        i += 1;
    }
    let ghost before = views(out@);
    let ghost read = word@;
    if begun {
        out.push(word);
    }
    proof {
        assert(views(out@) =~= before + finished(read));
    }
    out
}

/// The lines of `s` from character `i` on, with `line` already read.
pub open spec fn lines_from(s: Seq<char>, i: int, line: Seq<char>) -> Seq<Seq<char>>
    decreases s.len() - i,
{
    if i >= s.len() {
        seq![line]
    } else if s[i] == '\n' {
        seq![line] + lines_from(s, i + 1, Seq::empty())
    } else {
        lines_from(s, i + 1, line.push(s[i]))
    }
}

/// What newlines separate; there is always at least one line.
pub open spec fn lines_of(s: Seq<char>) -> Seq<Seq<char>> {
    lines_from(s, 0, Seq::empty())
}

/// See [`lines_of`].
pub fn split_lines(s: &str) -> (r: Vec<String>)
    ensures
        views(r@) == lines_of(s@),
        r@.len() > 0,
{
    broadcast use crate::views::group_views;

    let x: Vec<char> = chars_of(s);
    let mut out: Vec<String> = Vec::new();
    let mut line: String = String::new();
    let mut i: usize = 0;
    proof {
        assert(views(out@) + lines_of(s@) =~= lines_of(s@));
    }
    while i < x.len()
        invariant
            i <= x@.len(),
            x@ == s@,
            views(out@) + lines_from(s@, i as int, line@) == lines_of(s@),
        decreases x@.len() - i,
    {
        let c: char = x[i];
        if c == '\n' {
            proof {
                let rest = lines_from(s@, i + 1, Seq::empty());
                assert(views(out@).push(line@) + rest =~= views(out@) + (seq![line@] + rest));
            }
            out.push(line);
            line = String::new();
        } else {
            line.push(c);
        }
        i += 1;
    }
    proof {
        assert(views(out@).push(line@) =~= views(out@) + seq![line@]);
    }
    out.push(line);
    out
}

/// `s` with every newline or carriage return replaced by a space.
pub open spec fn on_one_line(s: Seq<char>) -> Seq<char> {
    s.map_values(|c: char| if c == '\n' || c == '\r' { ' ' } else { c })
}

/// See [`on_one_line`].
pub fn one_line(s: &str) -> (r: String)
    ensures
        r@ == on_one_line(s@),
{
    let x: Vec<char> = chars_of(s);
    let mut out: String = String::new();
    let mut i: usize = 0;
    while i < x.len()
        invariant
            i <= x@.len(),
            x@ == s@,
            out@ =~= on_one_line(s@).take(i as int),
        decreases x@.len() - i,
    {
        let c: char = x[i];
        out.push(
            if c == '\n' || c == '\r' {
                ' '
            } else {
                c
            },
        );
        i += 1;
    }
    proof {
        assert(out@ =~= on_one_line(s@));
    }
    out
}

/// Parts with `sep` between each two.
pub open spec fn joined(parts: Seq<Seq<char>>, sep: Seq<char>) -> Seq<char>
    decreases parts.len(),
{
    if parts.len() == 0 {
        Seq::empty()
    } else if parts.len() == 1 {
        parts[0]
    } else {
        joined(parts.drop_last(), sep) + sep + parts.last()
    }
}

/// See [`joined`].
pub fn join(parts: &Vec<String>, sep: &str) -> (r: String)
    ensures
        r@ == joined(views(parts@), sep@),
{
    broadcast use crate::views::group_views;

    let mut out: String = String::new();
    let mut i: usize = 0;
    while i < parts.len()
        invariant
            i <= parts@.len(),
            out@ == joined(views(parts@).take(i as int), sep@),
        decreases parts@.len() - i,
    {
        proof {
            let all = views(parts@);
            assert(all.take(i + 1).drop_last() =~= all.take(i as int));
            assert(all.take(i + 1).last() == parts@[i as int]@);
            if i == 0 {
                assert(out@ + parts@[0]@ =~= parts@[0]@);
            }
        }
        if i > 0 {
            out.append(sep);
        }
        out.append(parts[i].as_str());
        i += 1;
    }
    proof {
        assert(views(parts@).take(i as int) =~= views(parts@));
    }
    out
}

} // verus!
