//! The decisions of the command-line tool: its options, icon ids and
//! output names.

use crate::json::{decimal, push_char, push_decimal};
use crate::order::{slice_views, sorted_order, sorted_positions};
use crate::sheet::{Error, RenderedIcon, error_message, zero_keys};
use vstd::prelude::*;
use vstd::string::{StrSliceExecFns, StringExecFns};

verus! {

/// A failure of the command, with whether the usage line follows it.
pub struct CliFailure {
    /// What went wrong.
    pub message: String,
    /// Whether the usage line is printed after the message.
    pub show_usage: bool,
}

impl CliFailure {
    /// A failure while running; no usage line.
    pub fn runtime(message: String) -> (failure: Self)
        ensures
            failure.message@ == message@,
            !failure.show_usage,
    {
        CliFailure { message, show_usage: false }
    }

    /// A failure caused by the command line; the usage line follows it.
    pub fn usage(message: String) -> (failure: Self)
        ensures
            failure.message@ == message@,
            failure.show_usage,
    {
        CliFailure { message, show_usage: true }
    }
}

/// `s` holds the character `c`.
pub open spec fn has_char(s: Seq<char>, c: char) -> bool {
    exists|i: int| 0 <= i < s.len() && s[i] == c
}

fn contains_char(s: &str, c: char) -> (r: bool)
    ensures
        r == has_char(s@, c),
{
    let n = s.unicode_len();
    let mut i: usize = 0;
    while i < n
        invariant
            i <= n,
            n == s@.len(),
            forall|j: int| 0 <= j < i ==> s@[j] != c,
        decreases n - i,
    {
        if s.get_char(i) == c {
            return true;
        }
        i += 1;
    }
    false
}

/// Checks the base name of the output files: not empty, and without a
/// path separator.
pub fn validate_output_name(name: &str) -> (r: Result<(), CliFailure>)
    ensures
        r is Ok <==> name@.len() > 0 && !has_char(name@, '/') && !has_char(name@, '\\'),
        r matches Err(f) ==> f.show_usage && f.message@ == (if name@.len() == 0 {
            "--name must not be empty"@
        } else {
            "--name must not contain path separators"@
        }),
{
    if name.unicode_len() == 0 {
        return Err(CliFailure::usage(String::from_str("--name must not be empty")));
    }
    if contains_char(name, '/') || contains_char(name, '\\') {
        return Err(CliFailure::usage(String::from_str("--name must not contain path separators")));
    }
    Ok(())
}

/// The message for a `--ratio` value that is not a list of ratios.
pub open spec fn invalid_ratio_message(value: Seq<char>) -> Seq<char> {
    "invalid --ratio `"@ + value + "`: expected comma-separated integers from 1 to 255"@
}

/// The usage failure for a `--ratio` value that is not a list of ratios.
pub fn invalid_ratio(value: &str) -> (failure: CliFailure)
    ensures
        failure.show_usage,
        failure.message@ == invalid_ratio_message(value@),
{
    let mut message = String::from_str("invalid --ratio `");
    message.append(value);
    message.append("`: expected comma-separated integers from 1 to 255");
    CliFailure::usage(message)
}

/// `c` is an ASCII decimal digit.
pub open spec fn is_digit(c: char) -> bool {
    '0' <= c <= '9'
}

/// The number that the decimal digits `s` write.
pub open spec fn digits_value(s: Seq<char>) -> nat
    decreases s.len(),
{
    if s.len() == 0 {
        0
    } else {
        digits_value(s.drop_last()) * 10 + ((s.last() as u32) - 48) as nat
    }
}

/// `part` writes a pixel ratio: digits only, of a value from 1 to 255.
pub open spec fn valid_ratio(part: Seq<char>) -> bool {
    &&& part.len() > 0
    &&& forall|i: int| 0 <= i < part.len() ==> is_digit(#[trigger] part[i])
    &&& 1 <= digits_value(part) <= 255
}

/// The pieces of `s` between commas, as `str::split(',')` gives them.
pub open spec fn split_commas(s: Seq<char>) -> Seq<Seq<char>>
    decreases s.len(),
{
    if s.len() == 0 {
        seq![Seq::empty()]
    } else if s.last() == ',' {
        split_commas(s.drop_last()).push(Seq::empty())
    } else {
        let parts = split_commas(s.drop_last());
        parts.update(parts.len() - 1, parts.last().push(s.last()))
    }
}

/// Reading the ratios `parts` in order: their values, or the first
/// failure: `Err(true)` for a piece that is no ratio, `Err(false)` for a
/// ratio given twice.
pub open spec fn read_ratios(parts: Seq<Seq<char>>) -> Result<Seq<u8>, bool>
    decreases parts.len(),
{
    if parts.len() == 0 {
        Ok(Seq::empty())
    } else {
        match read_ratios(parts.drop_last()) {
            Err(e) => Err(e),
            Ok(values) => if !valid_ratio(parts.last()) {
                Err(true)
            } else if values.contains(digits_value(parts.last()) as u8) {
                Err(false)
            } else {
                Ok(values.push(digits_value(parts.last()) as u8))
            },
        }
    }
}

proof fn lemma_split_commas_nonempty(s: Seq<char>)
    ensures
        split_commas(s).len() > 0,
    decreases s.len(),
{
    if s.len() > 0 {
        lemma_split_commas_nonempty(s.drop_last());
    }
}

/// Read ratios are one per piece, each from 1 to 255, none twice.
pub proof fn lemma_read_ratios_valid(parts: Seq<Seq<char>>)
    ensures
        read_ratios(parts) matches Ok(values) ==> {
            &&& values.len() == parts.len()
            &&& forall|i: int| 0 <= i < values.len() ==> 1 <= #[trigger] values[i] <= 255
            &&& forall|i: int, j: int| 0 <= i < j < values.len() ==> #[trigger] values[i] != #[trigger] values[j]
        },
    decreases parts.len(),
{
    if parts.len() > 0 {
        lemma_read_ratios_valid(parts.drop_last());
        if let (Ok(values), Ok(before)) = (read_ratios(parts), read_ratios(parts.drop_last())) {
            assert(values == before.push(values.last()));
            assert forall|i: int, j: int| 0 <= i < j < values.len() implies #[trigger] values[i] != #[trigger] values[j] by {
                if j == values.len() - 1 {
                    assert(before[i] == values[i]);
                    assert(!before.contains(values[j]));
                } else {
                    assert(before[i] == values[i] && before[j] == values[j]);
                }
            }
        }
    }
}

/// Every character of a sanitized id is an ASCII letter or digit, `_` or
/// `-`, and the id is as long as the stem.
pub proof fn lemma_sanitized_chars(value: Seq<char>)
    ensures
        sanitized(value).len() == value.len(),
        forall|i: int|
            0 <= i < value.len() ==> {
                let c = #[trigger] sanitized(value)[i];
                ('a' <= c <= 'z') || ('A' <= c <= 'Z') || ('0' <= c <= '9') || c == '_' || c == '-'
            },
{
}

/// A sanitized id keeps each ASCII letter, each ASCII digit `0` to `9`,
/// each `_` and each `-` of the stem where it stands, and has `-` in place
/// of every other character.
pub proof fn lemma_sanitized_keeps_allowed(value: Seq<char>)
    ensures
        sanitized(value).len() == value.len(),
        forall|i: int|
            0 <= i < value.len() ==> {
                let c = value[i];
                let allowed = ('a' <= c <= 'z') || ('A' <= c <= 'Z') || ('0' <= c <= '9') || c == '_' || c
                    == '-';
                &&& allowed ==> #[trigger] sanitized(value)[i] == c
                &&& !allowed ==> sanitized(value)[i] == '-'
            },
{
}

/// Appending text keeps every finished piece of the split.
proof fn lemma_split_commas_prefix(s: Seq<char>, t: Seq<char>)
    ensures
        split_commas(s + t).len() >= split_commas(s).len(),
        forall|j: int| 0 <= j < split_commas(s).len() - 1 ==> #[trigger] split_commas(s + t)[j] == split_commas(s)[j],
    decreases t.len(),
{
    lemma_split_commas_nonempty(s);
    if t.len() == 0 {
        assert(s + t =~= s);
    } else {
        lemma_split_commas_prefix(s, t.drop_last());
        assert((s + t).drop_last() =~= s + t.drop_last());
        lemma_split_commas_nonempty(s + t.drop_last());
    }
}

/// Once reading fails, reading more pieces fails the same way.
proof fn lemma_read_ratios_prefix(p: Seq<Seq<char>>, q: Seq<Seq<char>>)
    requires
        p.len() <= q.len(),
        q.take(p.len() as int) == p,
        read_ratios(p) is Err,
    ensures
        read_ratios(q) == read_ratios(p),
    decreases q.len(),
{
    if q.len() == p.len() {
        assert(q =~= p);
    } else {
        assert(q.drop_last().take(p.len() as int) =~= p);
        lemma_read_ratios_prefix(p, q.drop_last());
    }
}

/// When the text up to a comma already fails, the whole text fails alike.
proof fn lemma_failure_stays(value: Seq<char>, i: int)
    requires
        0 <= i < value.len(),
        value[i] == ',',
        read_ratios(split_commas(value.take(i))) is Err,
    ensures
        read_ratios(split_commas(value)) == read_ratios(split_commas(value.take(i))),
{
    let done = split_commas(value.take(i));
    let head = value.take(i + 1);
    assert(head.drop_last() =~= value.take(i));
    assert(split_commas(head) == done.push(Seq::empty()));
    lemma_split_commas_prefix(head, value.skip(i + 1));
    assert(head + value.skip(i + 1) =~= value);
    let all = split_commas(value);
    assert(all.take(done.len() as int) =~= done);
    lemma_read_ratios_prefix(done, all);
}

fn contains_ratio(ratios: &Vec<u8>, ratio: u8) -> (r: bool)
    ensures
        r == ratios@.contains(ratio),
{
    let mut k: usize = 0;
    while k < ratios.len()
        invariant
            k <= ratios.len(),
            forall|j: int| 0 <= j < k ==> ratios@[j] != ratio,
        decreases ratios.len() - k,
    {
        if ratios[k] == ratio {
            proof {
                assert(ratios@[k as int] == ratio);
            }
            return true;
        }
        k += 1;
    }
    false
}

/// Parses comma-separated pixel ratios: each from 1 to 255, each once.
pub fn parse_ratios(value: &str) -> (r: Result<Vec<u8>, CliFailure>)
    ensures
        match read_ratios(split_commas(value@)) {
            Ok(values) => r matches Ok(v) && v@ == values,
            Err(true) => r matches Err(f) && f.show_usage && f.message@ == invalid_ratio_message(value@),
            Err(false) => r matches Err(f) && f.show_usage && f.message@ == "--ratio values must be unique"@,
        },
{
    let n = value.unicode_len();
    let mut ratios: Vec<u8> = Vec::new();
    let mut part_len: usize = 0;
    let mut all_digits = true;
    let mut number: u32 = 0;
    let mut i: usize = 0;
    proof {
        lemma_split_commas_nonempty(value@.take(0));
        assert(value@.take(0) =~= Seq::<char>::empty());
    }
    loop
        invariant
            i <= n,
            n == value@.len(),
            split_commas(value@.take(i as int)).len() > 0,
            read_ratios(split_commas(value@.take(i as int)).drop_last()) == Ok::<Seq<u8>, bool>(ratios@),
            part_len == split_commas(value@.take(i as int)).last().len(),
            all_digits == forall|j: int|
                0 <= j < part_len ==> is_digit(#[trigger] split_commas(value@.take(i as int)).last()[j]),
            all_digits ==> number == if digits_value(split_commas(value@.take(i as int)).last()) < 256 {
                digits_value(split_commas(value@.take(i as int)).last())
            } else {
                256
            },
            number <= 256,
            part_len <= i,
        decreases n - i,
    {
        let at_end = i == n;
        let c = if at_end {
            ','
        } else {
            value.get_char(i)
        };
        let ghost taken = value@.take(i as int);
        let ghost parts = split_commas(taken);
        let ghost current = parts.last();
        if c == ',' {
            proof {
                lemma_split_commas_nonempty(taken);
            }
            proof {
                assert(parts =~= parts.drop_last().push(current));
            }
            if part_len == 0 || !all_digits || number < 1 || number > 255 {
                proof {
                    assert(read_ratios(parts) == Err::<Seq<u8>, bool>(true));
                    if !at_end {
                        lemma_failure_stays(value@, i as int);
                    } else {
                        assert(taken =~= value@);
                    }
                }
                return Err(invalid_ratio(value));
            }
            let ratio = number as u8;
            if contains_ratio(&ratios, ratio) {
                proof {
                    assert(read_ratios(parts) == Err::<Seq<u8>, bool>(false));
                    if !at_end {
                        lemma_failure_stays(value@, i as int);
                    } else {
                        assert(taken =~= value@);
                    }
                }
                return Err(CliFailure::usage(String::from_str("--ratio values must be unique")));
            }
            ratios.push(ratio);
            if at_end {
                proof {
                    assert(taken =~= value@);
                    assert(parts =~= parts.drop_last().push(current));
                }
                return Ok(ratios);
            }
            proof {
                assert(value@.take(i + 1).drop_last() =~= taken);
                assert(split_commas(value@.take(i + 1)).drop_last() =~= parts);
                assert(parts =~= parts.drop_last().push(current));
            }
            part_len = 0;
            all_digits = true;
            number = 0;
        } else {
            proof {
                assert(value@.take(i + 1).drop_last() =~= taken);
                assert(value@.take(i + 1).last() == c);
                assert(split_commas(value@.take(i + 1)).drop_last() =~= parts.drop_last());
                assert(split_commas(value@.take(i + 1)).last() =~= current.push(c));
                assert(current.push(c).drop_last() =~= current);
            }
            let digit = '0' <= c && c <= '9';
            if digit {
                let d = (c as u32) - 48;
                if number < 256 {
                    number = number * 10 + d;
                    if number > 256 {
                        number = 256;
                    }
                }
            }
            let ghost was_digits = all_digits;
            all_digits = all_digits && digit;
            part_len += 1;
            proof {
                let next = current.push(c);
                assert(split_commas(value@.take(i + 1)).last() == next);
                assert forall|j: int| 0 <= j < part_len implies #[trigger] next[j] == (if j < part_len - 1 {
                    current[j]
                } else {
                    c
                }) by {}
                if all_digits {
                    assert forall|j: int| 0 <= j < part_len implies is_digit(#[trigger] next[j]) by {
                        if j < part_len - 1 {
                            assert(is_digit(current[j]));
                        }
                    }
                } else if !digit {
                    assert(!is_digit(next[part_len - 1]));
                } else {
                    assert(!was_digits);
                    let j = choose|j: int| 0 <= j < part_len - 1 && !is_digit(#[trigger] current[j]);
                    assert(!is_digit(next[j]));
                }
            }
        }
        i += 1;
    }
}

/// `c` stays in an icon id: an ASCII letter or digit, `_` or `-`.
pub open spec fn id_char(c: char) -> char {
    if ('a' <= c <= 'z') || ('A' <= c <= 'Z') || ('0' <= c <= '9') || c == '_' || c == '-' {
        c
    } else {
        '-'
    }
}

/// The icon id made of a file stem: every other character becomes `-`.
pub open spec fn sanitized(value: Seq<char>) -> Seq<char> {
    value.map_values(|c: char| id_char(c))
}

/// Makes an icon id of a file stem: ASCII letters and digits, `_` and `-`
/// stay, every other character becomes `-`.
pub fn sanitize_id(value: &str) -> (id: String)
    ensures
        id@ == sanitized(value@),
{
    let n = value.unicode_len();
    let mut id = String::new();
    let mut i: usize = 0;
    while i < n
        invariant
            i <= n,
            n == value@.len(),
            id@ == sanitized(value@.take(i as int)),
        decreases n - i,
    {
        let c = value.get_char(i);
        let keep = ('a' <= c && c <= 'z') || ('A' <= c && c <= 'Z') || ('0' <= c && c <= '9') || c == '_'
            || c == '-';
        push_char(&mut id, if keep { c } else { '-' });
        proof {
            assert(id@ =~= sanitized(value@.take(i + 1)));
        }
        i += 1;
    }
    proof {
        assert(value@.take(n as int) =~= value@);
    }
    id
}

/// `file_name` ends with `.svg`.
pub open spec fn is_svg_name(file_name: Seq<char>) -> bool {
    file_name.len() >= 4 && file_name.skip(file_name.len() - 4) == seq!['.', 's', 'v', 'g']
}

/// Whether the file name has the extension `svg` as `Path::extension`
/// reads a file name: it ends with `.svg` and something comes before that
/// dot.
pub fn has_svg_extension(file_name: &str) -> (r: bool)
    ensures
        r == (is_svg_name(file_name@) && file_name@.len() > 4),
{
    let n = file_name.unicode_len();
    if n <= 4 {
        return false;
    }
    let r = file_name.get_char(n - 4) == '.' && file_name.get_char(n - 3) == 's' && file_name.get_char(n - 2) == 'v'
        && file_name.get_char(n - 1) == 'g';
    proof {
        let tail = file_name@.skip(n - 4);
        if r {
            assert(tail =~= seq!['.', 's', 'v', 'g']);
        } else if is_svg_name(file_name@) {
            assert(tail[0] == '.' && tail[1] == 's' && tail[2] == 'v' && tail[3] == 'g');
        }
    }
    r
}

/// The file name without its `.svg` ending.
pub open spec fn svg_stem(file_name: Seq<char>) -> Seq<char> {
    file_name.take(file_name.len() - 4)
}

/// A position of `entries` that holds `id`, if there is one.
pub open spec fn registered_position(entries: Seq<(Seq<char>, Seq<char>)>, id: Seq<char>) -> int {
    choose|k: int| 0 <= k < entries.len() && #[trigger] entries[k].0 == id
}

/// The file registered under `id`, if any.
pub open spec fn registered_file(entries: Seq<(Seq<char>, Seq<char>)>, id: Seq<char>) -> Option<Seq<char>> {
    if exists|k: int| 0 <= k < entries.len() && #[trigger] entries[k].0 == id {
        Some(entries[registered_position(entries, id)].1)
    } else {
        None
    }
}

/// The message for two files whose ids coincide.
pub open spec fn collision_message(id: Seq<char>, existing: Seq<char>, file_name: Seq<char>) -> Seq<char> {
    "icon id collision `"@ + id + "` after sanitizing `"@ + existing + "` and `"@ + file_name + "`"@
}

/// The icon ids given so far, each with the file it came from.
pub struct IdRegistry {
    entries: Vec<(String, String)>,
}

impl View for IdRegistry {
    type V = Seq<(Seq<char>, Seq<char>)>;

    closed spec fn view(&self) -> Seq<(Seq<char>, Seq<char>)> {
        self.entries@.map_values(|e: (String, String)| (e.0@, e.1@))
    }
}

impl IdRegistry {
    #[verifier::type_invariant]
    spec fn ids_distinct(self) -> bool {
        forall|a: int, b: int| 0 <= a < b < self@.len() ==> #[trigger] self@[a].0 != #[trigger] self@[b].0
    }

    /// A registry without ids.
    pub fn new() -> (registry: Self)
        ensures
            registry@ == Seq::<(Seq<char>, Seq<char>)>::empty(),
    {
        let registry = IdRegistry { entries: Vec::new() };
        assert(registry@ =~= Seq::<(Seq<char>, Seq<char>)>::empty());
        registry
    }

    /// Gives the icon in `file_name` its id, the sanitized file stem, unless
    /// an earlier file already has that id.
    pub fn register(&mut self, file_name: &str) -> (r: Result<String, CliFailure>)
        requires
            is_svg_name(file_name@),
        ensures
            match registered_file(old(self)@, sanitized(svg_stem(file_name@))) {
                Some(existing) => r matches Err(f) && !f.show_usage && f.message@ == collision_message(
                    sanitized(svg_stem(file_name@)),
                    existing,
                    file_name@,
                ) && final(self)@ == old(self)@,
                None => r matches Ok(id) && id@ == sanitized(svg_stem(file_name@)) && final(self)@ == old(
                    self,
                )@.push((id@, file_name@)),
            },
    {
        proof {
            use_type_invariant(&*self);
        }
        let ghost before = self@;
        let n = file_name.unicode_len();
        let stem = file_name.substring_char(0, n - 4);
        assert(stem@ =~= svg_stem(file_name@));
        let id = sanitize_id(stem);
        assert(id@ == sanitized(svg_stem(file_name@)));
        let mut k: usize = 0;
        while k < self.entries.len()
            invariant
                k <= self.entries.len(),
                before == self@,
                id@ == sanitized(svg_stem(file_name@)),
                forall|a: int, b: int| 0 <= a < b < before.len() ==> #[trigger] before[a].0 != #[trigger] before[b].0,
                forall|j: int| 0 <= j < k ==> self@[j].0 != id@,
            decreases self.entries.len() - k,
        {
            if self.entries[k].0 == id {
                proof {
                    assert(self@[k as int].0 == id@);
                }
                let mut message = String::from_str("icon id collision `");
                message.append(id.as_str());
                message.append("` after sanitizing `");
                message.append(self.entries[k].1.as_str());
                message.append("` and `");
                message.append(file_name);
                message.append("`");
                proof {
                    let e = registered_position(before, id@);
                    assert(before[e].0 == before[k as int].0);
                    assert(e == k);
                    assert(before[k as int].1 == self.entries@[k as int].1@);
                    assert(message@ =~= collision_message(id@, before[k as int].1, file_name@));
                }
                return Err(CliFailure::runtime(message));
            }
            k += 1;
        }
        let ghost view = id@;
        let mut entries = Vec::new();
        std::mem::swap(&mut entries, &mut self.entries);
        entries.push((id.clone(), file_name.to_owned()));
        proof {
            let w = entries@.map_values(|e: (String, String)| (e.0@, e.1@));
            assert(w =~= before.push((view, file_name@)));
        }
        self.entries = entries;
        Ok(id)
    }
}

/// The byte keys by which file names are sorted.
pub open spec fn name_keys(names: Seq<Seq<char>>) -> Seq<Seq<u8>> {
    names.map_values(|name: Seq<char>| vstd::utf8::encode_utf8(name))
}

/// The file names in the order of `str`, equal names in input order.
pub open spec fn sorted_names(names: Seq<Seq<char>>) -> Seq<Seq<char>> {
    let order = sorted_positions(zero_keys(names.len() as int), name_keys(names), names.len() as int);
    Seq::new(names.len(), |k: int| names[order[k] as int])
}

/// The texts of some strings.
pub open spec fn texts(strings: Seq<String>) -> Seq<Seq<char>> {
    strings.map_values(|s: String| s@)
}

/// Sorts file names in the order of `str`.
pub fn sort_file_names(names: &Vec<String>) -> (sorted: Vec<String>)
    ensures
        texts(sorted@) == sorted_names(texts(names@)),
{
    let ghost views = texts(names@);
    let n = names.len();
    let mut primary: Vec<u64> = Vec::new();
    let mut keys: Vec<&[u8]> = Vec::new();
    let mut i: usize = 0;
    while i < n
        invariant
            i <= n,
            n == names.len(),
            views == texts(names@),
            primary@ == zero_keys(i as int),
            keys@.len() == i,
            slice_views(keys@) == name_keys(views).take(i as int),
        decreases n - i,
    {
        primary.push(0);
        keys.push(names[i].as_str().as_bytes());
        proof {
            assert(primary@ =~= zero_keys(i + 1));
            assert(slice_views(keys@) =~= name_keys(views).take(i + 1));
        }
        i += 1;
    }
    proof {
        assert(name_keys(views).take(n as int) =~= name_keys(views));
    }
    let order = sorted_order(&primary, &keys);
    let mut sorted: Vec<String> = Vec::new();
    let mut k: usize = 0;
    while k < n
        invariant
            k <= n,
            n == names.len(),
            views == texts(names@),
            order@ == sorted_positions(zero_keys(n as int), name_keys(views), n as int),
            crate::order::is_sorted_order(zero_keys(n as int), name_keys(views), order@, n as int),
            sorted@.len() == k,
            texts(sorted@) == sorted_names(views).take(k as int),
        decreases n - k,
    {
        sorted.push(names[order[k]].clone());
        proof {
            assert(texts(sorted@) =~= sorted_names(views).take(k + 1));
        }
        k += 1;
    }
    proof {
        assert(sorted_names(views).take(n as int) =~= sorted_names(views));
    }
    sorted
}

/// The name of an output file: the base name, `@<ratio>x` unless the
/// ratio is 1, a dot and the extension.
pub open spec fn output_file(name: Seq<char>, ratio: u8, extension: Seq<char>) -> Seq<char> {
    name + (if ratio == 1 {
        Seq::empty()
    } else {
        seq!['@'] + decimal(ratio as u32) + seq!['x']
    }) + seq!['.'] + extension
}

/// The name of the output file for one pixel ratio.
pub fn output_file_name(name: &str, ratio: u8, extension: &str) -> (file: String)
    ensures
        file@ == output_file(name@, ratio, extension@),
{
    let mut file = String::from_str(name);
    if ratio != 1 {
        push_char(&mut file, '@');
        push_decimal(&mut file, ratio as u32);
        push_char(&mut file, 'x');
    }
    push_char(&mut file, '.');
    file.append(extension);
    assert(file@ =~= output_file(name@, ratio, extension@));
    file
}

/// What becomes of an icon source after a trial rendering.
#[derive(Clone, Copy, Debug)]
pub enum SourceVerdict {
    /// It rendered; it goes into the sheets.
    Keep,
    /// It is not SVG and invalid sources are skipped.
    Skip,
    /// The command fails on it.
    Fail,
}

/// Keeps a source that rendered, skips invalid SVG when asked to, and
/// fails on anything else.
pub fn judge_source(render: &Result<RenderedIcon, Error>, skip_invalid: bool) -> (v: SourceVerdict)
    ensures
        v == match render {
            Ok(_) => SourceVerdict::Keep,
            Err(Error::InvalidSvg { .. }) => if skip_invalid {
                SourceVerdict::Skip
            } else {
                SourceVerdict::Fail
            },
            Err(_) => SourceVerdict::Fail,
        },
{
    match render {
        Ok(_) => SourceVerdict::Keep,
        Err(Error::InvalidSvg { .. }) => if skip_invalid {
            SourceVerdict::Skip
        } else {
            SourceVerdict::Fail
        },
        Err(_) => SourceVerdict::Fail,
    }
}

/// The failure for a source that did not render.
pub fn render_failure(file_name: &str, error: &Error) -> (failure: CliFailure)
    ensures
        !failure.show_usage,
        failure.message@ == "failed to render `"@ + file_name@ + "`: "@ + error_message(*error),
{
    let mut message = String::from_str("failed to render `");
    message.append(file_name);
    message.append("`: ");
    let text = error.message();
    message.append(text.as_str());
    CliFailure::runtime(message)
}

/// The note printed for a source that is skipped.
pub fn skip_note(file_name: &str, error: &Error) -> (note: String)
    ensures
        note@ == "skipping `"@ + file_name@ + "`: "@ + error_message(*error),
{
    let mut note = String::from_str("skipping `");
    note.append(file_name);
    note.append("`: ");
    let text = error.message();
    note.append(text.as_str());
    note
}

} // verus!
