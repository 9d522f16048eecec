//! The sprite index as deterministic pretty JSON.

use crate::cli::{digits_value, is_digit};
use crate::index::{SpriteIndex, SpriteIndexEntry};
use vstd::prelude::*;
use vstd::string::{StrSliceExecFns, StringExecFns};

verus! {

/// The lower-case hexadecimal digit of `d`.
pub open spec fn hex_char(d: u32) -> char {
    if d < 10 {
        (d + 48) as char
    } else {
        (d + 87) as char
    }
}

/// The decimal digit of `d`.
pub open spec fn digit_char(d: u32) -> char {
    (d + 48) as char
}

/// The decimal digits of `n`, without leading zeros.
pub open spec fn decimal(n: u32) -> Seq<char>
    decreases n,
{
    if n < 10 {
        seq![digit_char(n)]
    } else {
        decimal(n / 10).push(digit_char(n % 10))
    }
}

/// The decimal text of a number reads back as that number: it is not
/// empty, every character is a digit `0` to `9`, the digits' base-10 value
/// is `n`, and only zero is written with a leading `0`.
pub proof fn lemma_decimal_reads_back(n: u32)
    ensures
        decimal(n).len() > 0,
        forall|i: int| 0 <= i < decimal(n).len() ==> is_digit(#[trigger] decimal(n)[i]),
        digits_value(decimal(n)) == n,
        decimal(n)[0] == '0' ==> n == 0,
    decreases n,
{
    let d = n % 10;
    assert(digit_char(d) as u32 == d + 48);
    if n >= 10 {
        lemma_decimal_reads_back(n / 10);
        let s = decimal(n);
        assert(s.drop_last() =~= decimal(n / 10));
        assert(s.last() == digit_char(d));
        assert(digits_value(s) == digits_value(decimal(n / 10)) * 10 + d);
        assert((n / 10) * 10 + d == n);
    } else {
        let s = decimal(n);
        assert(s.drop_last() =~= Seq::<char>::empty());
        assert(digits_value(Seq::<char>::empty()) == 0);
        assert(s.last() == digit_char(d));
        assert(digits_value(s) == d);
    }
}

/// `c` as written inside a JSON string.
pub open spec fn escape_char(c: char) -> Seq<char> {
    if c == '"' {
        seq!['\\', '"']
    } else if c == '\\' {
        seq!['\\', '\\']
    } else if c == '\u{08}' {
        seq!['\\', 'b']
    } else if c == '\u{0c}' {
        seq!['\\', 'f']
    } else if c == '\n' {
        seq!['\\', 'n']
    } else if c == '\r' {
        seq!['\\', 'r']
    } else if c == '\t' {
        seq!['\\', 't']
    } else if (c as u32) < 0x20 {
        seq!['\\', 'u', '0', '0', hex_char(c as u32 / 16), hex_char(c as u32 % 16)]
    } else {
        seq![c]
    }
}

/// The characters of `s` as written inside a JSON string.
pub open spec fn escape(s: Seq<char>) -> Seq<char>
    decreases s.len(),
{
    if s.len() == 0 {
        Seq::empty()
    } else {
        escape(s.drop_last()) + escape_char(s.last())
    }
}

/// `s` as a JSON string literal.
pub open spec fn json_string(s: Seq<char>) -> Seq<char> {
    seq!['"'] + escape(s) + seq!['"']
}

/// One line of an entry: four spaces, the quoted field name, a colon,
/// a space, the value in decimal, and a comma unless it is the last.
pub open spec fn field_line(name: Seq<char>, value: u32, last: bool) -> Seq<char> {
    seq![' ', ' ', ' ', ' ', '"'] + name + seq!['"', ':', ' '] + decimal(value) + (if last {
        seq!['\n']
    } else {
        seq![',', '\n']
    })
}

/// The start of an entry: its id as a JSON string and an opening brace.
pub open spec fn entry_head(id: Seq<char>) -> Seq<char> {
    seq![' ', ' '] + json_string(id) + seq![':', ' ', '{', '\n']
}

/// The field lines of an entry.
pub open spec fn entry_fields(e: SpriteIndexEntry) -> Seq<char> {
    field_line(seq!['x'], e.x, false) + field_line(seq!['y'], e.y, false) + field_line(
        seq!['w', 'i', 'd', 't', 'h'],
        e.width,
        false,
    ) + field_line(seq!['h', 'e', 'i', 'g', 'h', 't'], e.height, false) + field_line(
        seq!['p', 'i', 'x', 'e', 'l', 'R', 'a', 't', 'i', 'o'],
        e.pixel_ratio as u32,
        true,
    )
}

/// The end of an entry: its closing brace, a comma unless it is the last,
/// and a newline.
pub open spec fn entry_tail(last: bool) -> Seq<char> {
    seq![' ', ' ', '}'] + (if last {
        Seq::empty()
    } else {
        seq![',']
    }) + seq!['\n']
}

/// The JSON of one index entry, indented by two spaces.
pub open spec fn entry_json(id: Seq<char>, e: SpriteIndexEntry, last: bool) -> Seq<char> {
    entry_head(id) + entry_fields(e) + entry_tail(last)
}

/// The JSON of the first `k` entries.
pub open spec fn entries_json(entries: Seq<(Seq<char>, SpriteIndexEntry)>, k: int) -> Seq<char>
    decreases k,
{
    if k <= 0 {
        Seq::empty()
    } else {
        entries_json(entries, k - 1) + entry_json(entries[k - 1].0, entries[k - 1].1, k == entries.len())
    }
}

/// The whole index as pretty JSON with a trailing newline; `{}` when empty.
pub open spec fn index_json(entries: Seq<(Seq<char>, SpriteIndexEntry)>) -> Seq<char> {
    if entries.len() == 0 {
        seq!['{', '}', '\n']
    } else {
        seq!['{', '\n'] + entries_json(entries, entries.len() as int) + seq!['}', '\n']
    }
}

#[verifier::external_body]
pub(crate) fn push_char(output: &mut String, c: char)
    ensures
        final(output)@ == old(output)@.push(c),
{
    output.push(c)
}

fn digit(d: u32) -> (c: char)
    requires
        d < 10,
    ensures
        c == digit_char(d),
{
    match d {
        0 => '0',
        1 => '1',
        2 => '2',
        3 => '3',
        4 => '4',
        5 => '5',
        6 => '6',
        7 => '7',
        8 => '8',
        _ => '9',
    }
}

/// Appends the decimal digits of `n`.
pub(crate) fn push_decimal(output: &mut String, n: u32)
    ensures
        final(output)@ == old(output)@ + decimal(n),
    decreases n,
{
    if n >= 10 {
        push_decimal(output, n / 10);
    }
    push_char(output, digit(n % 10));
    assert(final(output)@ =~= old(output)@ + decimal(n));
}

/// Appends `c` as written inside a JSON string.
fn push_escaped(output: &mut String, c: char)
    ensures
        final(output)@ == old(output)@ + escape_char(c),
{
    let ghost start = output@;
    if c == '"' {
        push_char(output, '\\');
        push_char(output, '"');
    } else if c == '\\' {
        push_char(output, '\\');
        push_char(output, '\\');
    } else if c == '\u{08}' {
        push_char(output, '\\');
        push_char(output, 'b');
    } else if c == '\u{0c}' {
        push_char(output, '\\');
        push_char(output, 'f');
    } else if c == '\n' {
        push_char(output, '\\');
        push_char(output, 'n');
    } else if c == '\r' {
        push_char(output, '\\');
        push_char(output, 'r');
    } else if c == '\t' {
        push_char(output, '\\');
        push_char(output, 't');
    } else if (c as u32) < 0x20 {
        let code = c as u32;
        push_char(output, '\\');
        push_char(output, 'u');
        push_char(output, '0');
        push_char(output, '0');
        push_char(output, hex(code / 16));
        push_char(output, hex(code % 16));
    } else {
        push_char(output, c);
    }
    assert(output@ =~= start + escape_char(c));
}

fn hex(d: u32) -> (c: char)
    requires
        d < 16,
    ensures
        c == hex_char(d),
{
    match d {
        0 => '0',
        1 => '1',
        2 => '2',
        3 => '3',
        4 => '4',
        5 => '5',
        6 => '6',
        7 => '7',
        8 => '8',
        9 => '9',
        10 => 'a',
        11 => 'b',
        12 => 'c',
        13 => 'd',
        14 => 'e',
        _ => 'f',
    }
}

/// Appends `value` as a JSON string literal.
pub fn push_json_string(output: &mut String, value: &str)
    ensures
        final(output)@ == old(output)@ + json_string(value@),
{
    let ghost start = output@;
    push_char(output, '"');
    let n = value.unicode_len();
    let mut i: usize = 0;
    while i < n
        invariant
            i <= n,
            n == value@.len(),
            output@ == start + seq!['"'] + escape(value@.take(i as int)),
        decreases n - i,
    {
        let c = value.get_char(i);
        push_escaped(output, c);
        proof {
            assert(value@.take(i + 1).drop_last() =~= value@.take(i as int));
        }
        i += 1;
    }
    push_char(output, '"');
    proof {
        assert(value@.take(n as int) =~= value@);
    }
    assert(output@ =~= start + json_string(value@));
}

/// Appends one field line of an entry.
fn push_field(output: &mut String, name: &str, value: u32, last: bool)
    ensures
        final(output)@ == old(output)@ + field_line(name@, value, last),
{
    let ghost start = output@;
    output.append("    \"");
    output.append(name);
    output.append("\": ");
    push_decimal(output, value);
    if last {
        push_char(output, '\n');
    } else {
        push_char(output, ',');
        push_char(output, '\n');
    }
    proof {
        reveal_strlit("    \"");
        reveal_strlit("\": ");
    }
    assert(output@ =~= start + field_line(name@, value, last));
}

fn push_entry_head(output: &mut String, id: &str)
    ensures
        final(output)@ == old(output)@ + entry_head(id@),
{
    let ghost start = output@;
    output.append("  ");
    push_json_string(output, id);
    output.append(": {\n");
    proof {
        reveal_strlit("  ");
        reveal_strlit(": {\n");
    }
    assert(output@ =~= start + entry_head(id@));
}

#[verifier::rlimit(40)]
fn push_entry_fields(output: &mut String, entry: SpriteIndexEntry)
    ensures
        final(output)@ == old(output)@ + entry_fields(entry),
{
    let ghost start = output@;
    push_field(output, "x", entry.x, false);
    push_field(output, "y", entry.y, false);
    push_field(output, "width", entry.width, false);
    push_field(output, "height", entry.height, false);
    push_field(output, "pixelRatio", entry.pixel_ratio as u32, true);
    proof {
        reveal_strlit("x");
        reveal_strlit("y");
        reveal_strlit("width");
        reveal_strlit("height");
        reveal_strlit("pixelRatio");
    }
    assert(output@ =~= start + entry_fields(entry));
}

fn push_entry_tail(output: &mut String, last: bool)
    ensures
        final(output)@ == old(output)@ + entry_tail(last),
{
    let ghost start = output@;
    output.append("  }");
    if !last {
        push_char(output, ',');
    }
    push_char(output, '\n');
    proof {
        reveal_strlit("  }");
    }
    assert(output@ =~= start + entry_tail(last));
}

/// Appends the JSON of one entry.
fn push_entry(output: &mut String, id: &str, entry: SpriteIndexEntry, last: bool)
    ensures
        final(output)@ == old(output)@ + entry_json(id@, entry, last),
{
    let ghost start = output@;
    push_entry_head(output, id);
    push_entry_fields(output, entry);
    push_entry_tail(output, last);
    assert(output@ =~= start + entry_json(id@, entry, last));
}

/// Serializes a MapLibre sprite index as deterministic pretty JSON.
///
/// Keys are emitted in id order, indentation is two spaces, field names
/// are `x`, `y`, `width`, `height`, and `pixelRatio`, and the result
/// always has a trailing newline.
pub fn index_to_json(index: &SpriteIndex) -> (json: String)
    ensures
        json@ == index_json(index@),
{
    if index.is_empty() {
        let json = String::from_str("{}\n");
        proof {
            reveal_strlit("{}\n");
        }
        assert(json@ =~= index_json(index@));
        return json;
    }
    let mut json = String::from_str("{\n");
    proof {
        reveal_strlit("{\n");
    }
    let n = index.len();
    let mut k: usize = 0;
    while k < n
        invariant
            k <= n,
            n == index@.len(),
            json@ == seq!['{', '\n'] + entries_json(index@, k as int),
        decreases n - k,
    {
        push_entry(&mut json, index.id_at(k), index.entry_at(k), k + 1 == n);
        k += 1;
    }
    json.append("}\n");
    proof {
        reveal_strlit("}\n");
    }
    assert(json@ =~= index_json(index@));
    json
}

} // verus!
