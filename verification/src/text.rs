//! Building blocks for text: decimal and hexadecimal numbers, escaping, joining, and splitting
//! into words.

use vstd::prelude::*;
use vstd::string::*;
use vstd::utf8::*;

verus! {

/// `String::push` appends the given character to the end of the string.
pub assume_specification[ std::string::String::push ](s: &mut std::string::String, c: char)
    ensures
        final(s)@ == old(s)@.push(c),
;

/// What `String::from_utf8_lossy` makes of a byte sequence.
pub uninterp spec fn utf8_lossy(bytes: Seq<u8>) -> Seq<char>;

/// Calls `String::from_utf8_lossy`. Its result depends on the bytes alone, and a byte sequence
/// that is valid UTF-8 is decoded unchanged. Which replacement characters stand in for an
/// invalid sequence is left to the name `utf8_lossy`.
#[verifier::external_body]
pub(crate) fn from_utf8_lossy(bytes: &[u8]) -> (r: String)
    ensures
        r@ == utf8_lossy(bytes@),
        valid_utf8(bytes@) ==> r@ == decode_utf8(bytes@),
{
    String::from_utf8_lossy(bytes).into_owned()
}

/// The lower case of a text, as `str::to_lowercase` has it.
pub uninterp spec fn lowercase(s: Seq<char>) -> Seq<char>;

/// Calls `str::to_lowercase`, which follows the Unicode property `Lowercase`: its result
/// depends on the text alone.
#[verifier::external_body]
pub(crate) fn to_lowercase(s: &str) -> (r: String)
    ensures
        r@ == lowercase(s@),
{
    s.to_lowercase()
}

/// Whether a character has the Unicode property `White_Space`.
pub open spec fn white_space(c: char) -> bool {
    let code = c as u32;
    ||| 0x9 <= code <= 0xd
    ||| code == 0x20
    ||| code == 0x85
    ||| code == 0xa0
    ||| code == 0x1680
    ||| 0x2000 <= code <= 0x200a
    ||| code == 0x2028
    ||| code == 0x2029
    ||| code == 0x202f
    ||| code == 0x205f
    ||| code == 0x3000
}

/// Whether a character has the Unicode property `White_Space`.
pub fn is_white_space(c: char) -> (r: bool)
    ensures
        r == white_space(c),
{
    let code: u32 = c as u32;
    (0x9 <= code && code <= 0xd) || code == 0x20 || code == 0x85 || code == 0xa0 || code == 0x1680
        || (0x2000 <= code && code <= 0x200a) || code == 0x2028 || code == 0x2029 || code == 0x202f
        || code == 0x205f || code == 0x3000
}

// ---------------------------------------------------------------------------------------------
// Numbers

/// The decimal digit of a number below ten.
pub open spec fn digit_char(d: nat) -> char {
    (48 + d) as char
}

/// The decimal representation of a natural number, without leading zeros.
pub open spec fn decimal(n: nat) -> Seq<char>
    decreases n,
{
    if n < 10 {
        seq![digit_char(n)]
    } else {
        decimal(n / 10).push(digit_char(n % 10))
    }
}

/// The decimal representation of an integer: negative numbers carry a leading minus sign.
pub open spec fn signed_decimal(n: int) -> Seq<char> {
    if n < 0 {
        seq!['-'] + decimal((-n) as nat)
    } else {
        decimal(n as nat)
    }
}

/// Appends the decimal representation of `n`.
pub fn push_decimal(out: &mut String, n: u64)
    ensures
        final(out)@ == old(out)@ + decimal(n as nat),
    decreases n,
{
    if n < 10 {
        out.push((48u8 + n as u8) as char);
        assert(out@ =~= old(out)@ + decimal(n as nat));
    } else {
        push_decimal(out, n / 10);
        out.push((48u8 + (n % 10) as u8) as char);
        assert(out@ =~= old(out)@ + decimal(n as nat));
    }
}

/// The decimal representation of an unsigned number.
pub fn unsigned_to_text(n: u64) -> (r: String)
    ensures
        r@ == decimal(n as nat),
{
    let mut out = String::new();
    push_decimal(&mut out, n);
    assert(out@ =~= decimal(n as nat));
    out
}

/// The decimal representation of a signed number.
pub fn signed_to_text(n: i64) -> (r: String)
    ensures
        r@ == signed_decimal(n as int),
{
    let mut out = String::new();
    if n < 0 {
        out.push('-');
        let magnitude: u64 = (-(n as i128)) as u64;
        push_decimal(&mut out, magnitude);
        assert(out@ =~= signed_decimal(n as int));
    } else {
        push_decimal(&mut out, n as u64);
        assert(out@ =~= signed_decimal(n as int));
    }
    out
}

/// The lower-case hexadecimal digit of a number below sixteen.
pub open spec fn hex_char(d: nat) -> char {
    if d < 10 {
        (48 + d) as char
    } else {
        (87 + d) as char
    }
}

/// A byte as two hexadecimal digits.
pub open spec fn hex_byte(b: u8) -> Seq<char> {
    seq![hex_char((b / 16) as nat), hex_char((b % 16) as nat)]
}

fn hex_digit(d: u8) -> (c: char)
    requires
        d < 16,
    ensures
        c == hex_char(d as nat),
{
    if d < 10 {
        (48u8 + d) as char
    } else {
        (87u8 + d) as char
    }
}

/// Appends a byte as two hexadecimal digits.
pub fn push_hex_byte(out: &mut String, b: u8)
    ensures
        final(out)@ == old(out)@ + hex_byte(b),
{
    out.push(hex_digit(b / 16));
    out.push(hex_digit(b % 16));
    assert(out@ =~= old(out)@ + hex_byte(b));
}

/// A byte sequence as hexadecimal digits, two per byte.
pub open spec fn hex_bytes(bytes: Seq<u8>) -> Seq<char>
    decreases bytes.len(),
{
    if bytes.len() == 0 {
        seq![]
    } else {
        hex_bytes(bytes.drop_last()) + hex_byte(bytes.last())
    }
}

/// Appends a byte sequence as hexadecimal digits.
pub fn push_hex_bytes(out: &mut String, bytes: &[u8])
    ensures
        final(out)@ == old(out)@ + hex_bytes(bytes@),
{
    let mut i: usize = 0;
    assert(out@ =~= old(out)@ + hex_bytes(bytes@.take(0)));
    while i < bytes.len()
        invariant
            i <= bytes.len(),
            out@ == old(out)@ + hex_bytes(bytes@.take(i as int)),
        decreases bytes.len() - i,
    {
        push_hex_byte(out, bytes[i]);
        proof {
            assert(bytes@.take(i + 1).drop_last() =~= bytes@.take(i as int));
            assert(out@ =~= old(out)@ + hex_bytes(bytes@.take(i + 1)));
        }
        i = i + 1;
    }
    assert(bytes@.take(i as int) =~= bytes@);
}

// ---------------------------------------------------------------------------------------------
// Escaping

/// The control characters: the general category `Cc`.
pub open spec fn is_control(c: char) -> bool {
    c as u32 <= 0x1f || 0x7f <= c as u32 <= 0x9f
}

/// A character as it stands between the quotes of a JSON-like string.
pub open spec fn escape_char(c: char) -> Seq<char> {
    if c == '"' {
        "\\\""@
    } else if c == '\\' {
        "\\\\"@
    } else if c == '\n' {
        "\\n"@
    } else if c == '\r' {
        "\\r"@
    } else if c == '\t' {
        "\\t"@
    } else if is_control(c) {
        "\\u00"@ + hex_byte(c as u8)
    } else {
        seq![c]
    }
}

/// A text as it stands between the quotes of a JSON-like string.
pub open spec fn escaped(s: Seq<char>) -> Seq<char>
    decreases s.len(),
{
    if s.len() == 0 {
        seq![]
    } else {
        escaped(s.drop_last()) + escape_char(s.last())
    }
}

fn push_escaped_char(out: &mut String, c: char)
    ensures
        final(out)@ == old(out)@ + escape_char(c),
{
    if c == '"' {
        out.append("\\\"");
    } else if c == '\\' {
        out.append("\\\\");
    } else if c == '\n' {
        out.append("\\n");
    } else if c == '\r' {
        out.append("\\r");
    } else if c == '\t' {
        out.append("\\t");
    } else {
        let code: u32 = c as u32;
        if code <= 0x1f || (0x7f <= code && code <= 0x9f) {
            out.append("\\u00");
            push_hex_byte(out, code as u8);
            assert(out@ =~= old(out)@ + escape_char(c));
        } else {
            out.push(c);
            assert(out@ =~= old(out)@ + escape_char(c));
        }
    }
}

/// Escapes quotes, backslashes and control characters.
pub fn escape_json(input: &str) -> (out: String)
    ensures
        out@ == escaped(input@),
{
    let mut out = String::new();
    assert(out@ =~= escaped(input@.take(0)));
    for c in it: input.chars()
        invariant
            it.seq() == input@,
            out@ == escaped(input@.take(it.index())),
    {
        let ghost i = it.index();
        push_escaped_char(&mut out, c);
        assert(input@.take(i + 1).drop_last() =~= input@.take(i));
    }
    assert(input@.take(input@.len() as int) =~= input@);
    out
}

// ---------------------------------------------------------------------------------------------
// Joining and replacing

/// The parts, one after the other, with `separator` between neighbours.
pub open spec fn joined(parts: Seq<Seq<char>>, separator: Seq<char>) -> Seq<char>
    decreases parts.len(),
{
    if parts.len() == 0 {
        seq![]
    } else if parts.len() == 1 {
        parts[0]
    } else {
        joined(parts.drop_last(), separator) + separator + parts.last()
    }
}

/// Appends the next part of a joined list: the separator first, unless the part is the first.
pub(crate) fn push_part(
    out: &mut String,
    first: bool,
    separator: &str,
    part: &str,
    Ghost(head): Ghost<Seq<char>>,
    Ghost(parts): Ghost<Seq<Seq<char>>>,
)
    requires
        first <==> parts.len() == 0,
        old(out)@ == head + joined(parts, separator@),
    ensures
        final(out)@ == head + joined(parts.push(part@), separator@),
{
    if !first {
        out.append(separator);
    }
    out.append(part);
    proof {
        assert(parts.push(part@).drop_last() =~= parts);
        assert(out@ =~= head + joined(parts.push(part@), separator@));
    }
}

/// A text with every tab replaced by one space.
pub open spec fn tabs_to_spaces(s: Seq<char>) -> Seq<char> {
    s.map_values(
        |c: char|
            if c == '\t' {
                ' '
            } else {
                c
            },
    )
}

/// Replaces every tab by one space.
pub fn replace_tabs(input: &str) -> (out: String)
    ensures
        out@ == tabs_to_spaces(input@),
{
    let mut out = String::new();
    for c in it: input.chars()
        invariant
            it.seq() == input@,
            out@ =~= tabs_to_spaces(input@.take(it.index())),
    {
        out.push(
            if c == '\t' {
                ' '
            } else {
                c
            },
        );
    }
    assert(input@.take(input@.len() as int) =~= input@);
    out
}

/// An ASCII letter in upper case; every other character unchanged.
pub open spec fn ascii_upper_char(c: char) -> char {
    if 'a' <= c <= 'z' {
        (c as u32 - 32) as char
    } else {
        c
    }
}

/// A text with its ASCII letters in upper case.
pub open spec fn ascii_upper(s: Seq<char>) -> Seq<char> {
    s.map_values(|c: char| ascii_upper_char(c))
}

/// Turns ASCII letters to upper case.
pub fn to_ascii_upper(input: &str) -> (out: String)
    ensures
        out@ == ascii_upper(input@),
{
    let mut out = String::new();
    for c in it: input.chars()
        invariant
            it.seq() == input@,
            out@ =~= ascii_upper(input@.take(it.index())),
    {
        let code: u32 = c as u32;
        if 97 <= code && code <= 122 {
            out.push((code as u8 - 32) as char);
        } else {
            out.push(c);
        }
    }
    assert(input@.take(input@.len() as int) =~= input@);
    out
}

// ---------------------------------------------------------------------------------------------
// Words

/// The maximal runs of characters that are not blank.
pub open spec fn runs(s: Seq<char>, blank: Seq<bool>) -> Seq<Seq<char>>
    decreases s.len(),
{
    if s.len() == 0 {
        seq![]
    } else if blank[s.len() - 1] {
        runs(s.drop_last(), blank)
    } else if s.len() >= 2 && !blank[s.len() - 2] {
        let before = runs(s.drop_last(), blank);
        before.drop_last().push(before.last().push(s.last()))
    } else {
        runs(s.drop_last(), blank).push(seq![s.last()])
    }
}

/// Which characters of a text are white space.
pub open spec fn blanks(s: Seq<char>) -> Seq<bool> {
    Seq::new(s.len(), |i: int| white_space(s[i]))
}

/// The words of a text: its maximal runs of characters that are not white space.
pub open spec fn words(s: Seq<char>) -> Seq<Seq<char>> {
    runs(s, blanks(s))
}

/// A text that ends in a character that is not blank has a last run.
proof fn lemma_runs_nonempty(s: Seq<char>, blank: Seq<bool>)
    requires
        s.len() > 0,
        !blank[s.len() - 1],
    ensures
        runs(s, blank).len() > 0,
{
}

/// Splits a text into its runs of characters that are not blank, each as a list of characters.
pub fn split_runs(input: &str, blank: &Vec<bool>) -> (out: Vec<Vec<char>>)
    requires
        blank.len() == input@.len(),
    ensures
        out.deep_view() == runs(input@, blank@),
{
    let mut out: Vec<Vec<char>> = Vec::new();
    let mut in_run: bool = false;
    let mut at: usize = 0;
    assert(out.deep_view() =~= runs(input@.take(0), blank@));
    for c in it: input.chars()
        invariant
            it.seq() == input@,
            at == it.index(),
            blank.len() == input@.len(),
            out.deep_view() == runs(input@.take(it.index()), blank@),
            in_run <==> (it.index() > 0 && !blank@[it.index() - 1]),
    {
        let ghost i = it.index();
        let ghost before = out.deep_view();
        let ghost seen = input@.take(i + 1);
        assert(seen.drop_last() =~= input@.take(i));
        if blank[at] {
            in_run = false;
        } else if in_run {
            proof {
                lemma_runs_nonempty(input@.take(i), blank@);
                assert(out@.len() == before.len());
            }
            let last = out.pop();
            if let Some(mut run) = last {
                run.push(c);
                out.push(run);
            }
            assert(out.deep_view() =~~= runs(seen, blank@));
        } else {
            let mut run: Vec<char> = Vec::new();
            run.push(c);
            out.push(run);
            in_run = true;
            assert(out.deep_view() =~~= runs(seen, blank@));
        }
        at = at + 1;
    }
    assert(input@.take(input@.len() as int) =~= input@);
    out
}

/// Splits a text into its words, each as a list of characters.
pub fn split_words(input: &str) -> (out: Vec<Vec<char>>)
    ensures
        out.deep_view() == words(input@),
{
    let mut blank: Vec<bool> = Vec::new();
    for c in it: input.chars()
        invariant
            it.seq() == input@,
            blank@ == blanks(input@.take(it.index())),
    {
        blank.push(is_white_space(c));
        assert(blank@ =~= blanks(input@.take(it.index() + 1)));
    }
    assert(input@.take(input@.len() as int) =~= input@);
    split_runs(input, &blank)
}

/// Only the marks of the text itself matter to its runs.
proof fn lemma_runs_agree(s: Seq<char>, a: Seq<bool>, b: Seq<bool>)
    requires
        forall|i: int| 0 <= i < s.len() ==> #[trigger] a[i] == b[i],
    ensures
        runs(s, a) == runs(s, b),
    decreases s.len(),
{
    if s.len() > 0 {
        lemma_runs_agree(s.drop_last(), a, b);
        assert(a[s.len() - 1] == b[s.len() - 1]);
        if s.len() >= 2 {
            assert(a[s.len() - 2] == b[s.len() - 2]);
        }
    }
}

/// The words of a text by those of the text without its last character.
pub(crate) proof fn lemma_words_last(s: Seq<char>)
    requires
        s.len() > 0,
    ensures
        words(s) == {
            let before = words(s.drop_last());
            if white_space(s.last()) {
                before
            } else if s.len() >= 2 && !white_space(s[s.len() - 2]) {
                before.drop_last().push(before.last().push(s.last()))
            } else {
                before.push(seq![s.last()])
            }
        },
{
    lemma_runs_agree(s.drop_last(), blanks(s), blanks(s.drop_last()));
}

/// White space separates words, and nothing else comes of it: the words of two texts with white
/// space between them are the words of the first and then those of the second.
pub proof fn white_space_separates_words(s: Seq<char>, blank: char, t: Seq<char>)
    requires
        white_space(blank),
    ensures
        words(s.push(blank) + t) == words(s) + words(t),
    decreases t.len(),
{
    let u = s.push(blank) + t;
    lemma_words_last(u);
    if t.len() == 0 {
        assert(u.drop_last() =~= s);
        assert(u.last() == blank);
        assert(words(s) + words(t) =~= words(s));
    } else {
        let init = t.drop_last();
        assert(u.drop_last() =~= s.push(blank) + init);
        assert(u.last() == t.last());
        white_space_separates_words(s, blank, init);
        lemma_words_last(t);
        if t.len() >= 2 {
            assert(u[u.len() - 2] == t[t.len() - 2]);
            if !white_space(t[t.len() - 2]) {
                assert(init.last() == t[t.len() - 2]);
                lemma_runs_nonempty(init, blanks(init));
            }
        } else {
            assert(u[u.len() - 2] == blank);
        }
        assert(words(u) =~= words(s) + words(t));
    }
}

} // verus!
