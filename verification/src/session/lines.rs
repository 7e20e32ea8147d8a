//! The session file as text: entry ids and their numbers, the line
//! checksum, the entry lines of a file (a torn tail dropped), which lines a
//! paged read takes, and the header-line rewrites. Parsing a line into an
//! entry, and the file reads and writes, are the application's.

use crate::om::groups::hex_fixed;
use crate::session::crc32_of;
use crate::text::{
    append_chars, chars_eq, chars_of, decimal, ends_with, ends_with_exec, join, join_chars, lines_chars, lines_of,
    push_decimal, slice_vec, split, split_chars, starts_with, starts_with_exec, string_of,
};
use vstd::prelude::*;

verus! {

pub open spec fn line_views(v: Seq<String>) -> Seq<Seq<char>> {
    v.map_values(|s: String| s@)
}

/// `s` left-padded with zeros to `w` characters.
pub open spec fn zero_padded(s: Seq<char>, w: nat) -> Seq<char> {
    if s.len() < w {
        Seq::new((w - s.len()) as nat, |i: int| '0') + s
    } else {
        s
    }
}

/// An entry id: the entry number in decimal, zero-padded to eight digits.
pub open spec fn entry_id_of(n: nat) -> Seq<char> {
    zero_padded(decimal(n), 8)
}

/// The entry id for number `n`.
pub fn entry_id(n: u64) -> (r: String)
    ensures
        r@ == entry_id_of(n as nat),
{
    let mut digits: Vec<char> = Vec::new();
    push_decimal(&mut digits, n);
    let mut out: Vec<char> = Vec::new();
    let mut k = digits.len();
    while k < 8
        invariant
            digits@ == decimal(n as nat),
            digits@.len() <= k <= 8 || (k == digits@.len() && k >= 8),
            out@ == Seq::new((k - digits@.len()) as nat, |i: int| '0'),
        decreases 8 - k,
    {
        out.push('0');
        assert(out@ =~= Seq::new((k + 1 - digits@.len()) as nat, |i: int| '0'));
        k = k + 1;
    }
    append_chars(&mut out, &digits);
    assert(out@ =~= entry_id_of(n as nat));
    string_of(&out)
}

/// The value of decimal digits.
pub open spec fn digits_value(d: Seq<char>) -> nat
    decreases d.len(),
{
    if d.len() == 0 {
        0
    } else {
        digits_value(d.drop_last()) * 10 + ((d.last() as nat) - 48) as nat
    }
}

pub open spec fn is_digit(c: char) -> bool {
    '0' <= c && c <= '9'
}

/// Every character is a decimal digit.
pub open spec fn all_digits(d: Seq<char>) -> bool {
    forall|i: int| 0 <= i < d.len() ==> is_digit(#[trigger] d[i])
}

/// The text after an optional leading `+`.
pub open spec fn unsigned_part(s: Seq<char>) -> Seq<char> {
    if s.len() > 0 && s[0] == '+' {
        s.drop_first()
    } else {
        s
    }
}

/// `u64` parsing of text: an optional `+`, then one or more decimal
/// digits whose value fits in 64 bits.
pub open spec fn parsed_u64(s: Seq<char>) -> Option<nat> {
    let d = unsigned_part(s);
    if d.len() > 0 && all_digits(d) && digits_value(d) <= u64::MAX {
        Some(digits_value(d))
    } else {
        None
    }
}

proof fn lemma_digits_grow(d: Seq<char>, i: int)
    requires
        0 <= i <= d.len(),
        all_digits(d),
    ensures
        digits_value(d.take(i)) <= digits_value(d),
    decreases d.len() - i,
{
    if i < d.len() {
        lemma_digits_grow(d, i + 1);
        assert(d.take(i + 1).drop_last() =~= d.take(i));
        assert(is_digit(d[i]));
    } else {
        assert(d.take(i) =~= d);
    }
}

/// An entry's number: its id parsed as a `u64`, 0 when it is not one.
pub fn entry_number(id: &str) -> (r: u64)
    ensures
        r == match parsed_u64(id@) {
            Some(v) => v,
            None => 0,
        },
{
    let s = chars_of(id);
    let start: usize = if s.len() > 0 && s[0] == '+' { 1 } else { 0 };
    let ghost d = unsigned_part(id@);
    assert(d =~= s@.skip(start as int));
    if start >= s.len() {
        return 0;
    }
    let mut acc: u64 = 0;
    let mut i = start;
    while i < s.len()
        invariant
            start <= i <= s@.len(),
            s@ == id@,
            d == unsigned_part(id@),
            d == s@.skip(start as int),
            forall|j: int| 0 <= j < i - start ==> is_digit(#[trigger] d[j]),
            acc == digits_value(d.take(i - start)),
        decreases s@.len() - i,
    {
        let c = s[i];
        assert(d[i - start] == c);
        if !('0' <= c && c <= '9') {
            assert(!is_digit(d[i - start]));
            assert(!all_digits(d));
            return 0;
        }
        let v = (c as u32 - 48) as u64;
        assert(d.take(i + 1 - start).drop_last() =~= d.take(i - start));
        if acc > (u64::MAX - v) / 10 {
            proof {
                assert(digits_value(d.take(i + 1 - start)) > u64::MAX) by (nonlinear_arith)
                    requires
                        acc > (u64::MAX - v) / 10,
                        digits_value(d.take(i + 1 - start)) == acc * 10 + v,
                        v <= 9,
                ;
                if all_digits(d) {
                    lemma_digits_grow(d, i + 1 - start);
                }
            }
            return 0;
        }
        assert(acc * 10 + v <= u64::MAX) by (nonlinear_arith)
            requires
                acc <= (u64::MAX - v) / 10,
                v <= 9,
        ;
        acc = acc * 10 + v;
        i = i + 1;
    }
    assert(d.take(d.len() as int) =~= d);
    acc
}

/// The number after every entry's: one past the largest entry number, and
/// at least 1.
pub open spec fn next_number_of(ids: Seq<Seq<char>>) -> nat
    decreases ids.len(),
{
    if ids.len() == 0 {
        1
    } else {
        let prev = next_number_of(ids.drop_last());
        let here = match parsed_u64(ids.last()) {
            Some(v) => v,
            None => 0,
        } + 1;
        if here > prev {
            here
        } else {
            prev
        }
    }
}

/// The next entry number after loading the ids: one past the largest
/// entry number, at least 1.
pub fn next_number(ids: &[String]) -> (r: u64)
    requires
        forall|i: int| 0 <= i < ids@.len() ==> parsed_u64(#[trigger] ids@[i]@) != Some(u64::MAX as nat),
    ensures
        r == next_number_of(line_views(ids@)),
{
    let ghost v = line_views(ids@);
    let mut next: u64 = 1;
    let mut i: usize = 0;
    while i < ids.len()
        invariant
            i <= ids@.len(),
            v == line_views(ids@),
            forall|k: int| 0 <= k < ids@.len() ==> parsed_u64(#[trigger] ids@[k]@) != Some(u64::MAX as nat),
            next == next_number_of(v.take(i as int)),
        decreases ids@.len() - i,
    {
        assert(v.take(i + 1).drop_last() =~= v.take(i as int));
        assert(v[i as int] == ids@[i as int]@);
        let n = entry_number(ids[i].as_str());
        assert(parsed_u64(ids@[i as int]@) != Some(u64::MAX as nat));
        let here = n + 1;
        if here > next {
            next = here;
        }
        i = i + 1;
    }
    assert(v.take(ids@.len() as int) =~= v);
    next
}

/// The checksum text of a line: the CRC-32 of its UTF-8 bytes as eight
/// lowercase hex digits.
pub open spec fn crc_text_of(line: Seq<char>) -> Seq<char> {
    hex_fixed(crc32_of(vstd::utf8::encode_utf8(line)) as nat, 8)
}

/// The checksum text of an entry's canonical line.
pub fn crc_text(line: &str) -> (r: String)
    ensures
        r@ == crc_text_of(line@),
{
    let c = crate::session::crc32(line.as_bytes());
    let mut out: Vec<char> = Vec::new();
    crate::om::groups::push_hex(&mut out, c as u64, 8);
    string_of(&out)
}

/// The file's lines with an unterminated last line dropped when
/// `keep_tail` is false.
pub open spec fn kept_lines(raw: Seq<char>, keep_tail: bool) -> Seq<Seq<char>> {
    let ls = lines_of(raw);
    if (raw.len() == 0 || raw.last() != '\n') && ls.len() > 0 && !keep_tail {
        ls.drop_last()
    } else {
        ls
    }
}

/// The file's lines, a torn tail dropped: a final line without its newline
/// that `parses` rejects (it reads as neither an entry nor the header) is
/// a kill-interrupted write, not an entry. A complete final line missing
/// only its newline is kept. The read path never rewrites the file.
pub fn entry_lines<F: Fn(&str) -> bool>(raw: &str, parses: F) -> (r: Vec<String>)
    requires
        forall|s: &str| call_requires(parses, (s,)),
    ensures
        line_views(r@) == kept_lines(raw@, true) || line_views(r@) == kept_lines(raw@, false),
        line_views(r@) != kept_lines(raw@, true) ==> exists|s: &str| s@ == lines_of(raw@).last() && call_ensures(
            parses,
            (s,),
            false,
        ),
{
    let v = chars_of(raw);
    let ls = lines_chars(&v);
    let ghost want = lines_of(raw@);
    let mut out: Vec<String> = Vec::new();
    let mut i: usize = 0;
    while i < ls.len()
        invariant
            i <= ls@.len(),
            ls@.len() == want.len(),
            forall|k: int| 0 <= k < ls@.len() ==> #[trigger] ls@[k]@ == want[k],
            line_views(out@) == want.take(i as int),
        decreases ls@.len() - i,
    {
        let ghost before = out@;
        out.push(string_of(&ls[i]));
        assert(line_views(out@) =~= line_views(before).push(want[i as int]));
        assert(want.take(i + 1) =~= want.take(i as int).push(want[i as int]));
        i = i + 1;
    }
    assert(want.take(ls@.len() as int) =~= want);
    let n = out.len();
    let unterminated = v.len() == 0 || v[v.len() - 1] != '\n';
    if unterminated && n > 0 {
        let keep = parses(out[n - 1].as_str());
        if !keep {
            let ghost before = out@;
            out.pop();
            assert(line_views(out@) =~= line_views(before).drop_last());
            assert(out@.len() + 1 == before.len());
            assert(before[n - 1]@ == want.last());
        }
    }
    out
}

/// The entry lines (all but the header) a paged read takes: those at
/// 0-based entry index `start` up to `end`, empty lines skipped (they keep
/// their index), each with its 1-based file line number.
pub open spec fn range_of(lines: Seq<Seq<char>>, start: int, end: int, n: int) -> Seq<(int, Seq<char>)>
    decreases n,
{
    if n <= 0 {
        Seq::empty()
    } else {
        let prev = range_of(lines, start, end, n - 1);
        let i = n - 1;
        if i + 1 < lines.len() && lines[i + 1].len() > 0 && start <= i < end {
            prev.push((i + 2, lines[i + 1]))
        } else {
            prev
        }
    }
}

pub open spec fn numbered_views(v: Seq<(usize, String)>) -> Seq<(int, Seq<char>)> {
    v.map_values(|p: (usize, String)| (p.0 as int, p.1@))
}

/// The lines of a paged read by 0-based entry index: `start` up to
/// `end`, with their file line numbers (the header is line 1).
pub fn range_lines(lines: &[String], start: usize, end: usize) -> (r: Vec<(usize, String)>)
    requires
        lines@.len() < usize::MAX,
    ensures
        numbered_views(r@) == range_of(line_views(lines@), start as int, end as int, lines@.len() - 1),
{
    let ghost lv = line_views(lines@);
    let mut out: Vec<(usize, String)> = Vec::new();
    if lines.len() == 0 {
        return out;
    }
    let mut i: usize = 0;
    while i + 1 < lines.len()
        invariant
            i + 1 <= lines@.len() < usize::MAX,
            lv == line_views(lines@),
            numbered_views(out@) == range_of(lv, start as int, end as int, i as int),
        decreases lines@.len() - i,
    {
        let line = &lines[i + 1];
        assert(lv[i + 1] == line@);
        if chars_of(line.as_str()).len() > 0 && start <= i && i < end {
            let ghost before = out@;
            out.push((i + 2, line.clone()));
            assert(numbered_views(out@) =~= numbered_views(before).push((i + 2, line@)));
        }
        i = i + 1;
    }
    out
}

/// The prefix a line of the entry with id `cursor` starts with.
pub open spec fn id_prefix(cursor: Seq<char>) -> Seq<char> {
    "{\"id\":\""@ + cursor + "\""@
}

/// The entry lines after the first one of the entry with id `cursor`,
/// with their file line numbers; none when no line is the cursor's.
pub open spec fn since_of(lines: Seq<Seq<char>>, cursor: Seq<char>, n: int) -> (bool, Seq<(int, Seq<char>)>)
    decreases n,
{
    if n <= 0 {
        (false, Seq::empty())
    } else {
        let (past, prev) = since_of(lines, cursor, n - 1);
        let i = n - 1;
        if i + 1 >= lines.len() || lines[i + 1].len() == 0 {
            (past, prev)
        } else if past {
            (true, prev.push((i + 2, lines[i + 1])))
        } else {
            (starts_with(lines[i + 1], id_prefix(cursor)), prev)
        }
    }
}

/// The lines of a tail read after the entry with id `cursor` (located by
/// its line's id prefix, so the lines before it need no parse).
pub fn since_lines(lines: &[String], cursor: &str) -> (r: Vec<(usize, String)>)
    requires
        lines@.len() < usize::MAX,
    ensures
        numbered_views(r@) == since_of(line_views(lines@), cursor@, lines@.len() - 1).1,
{
    let ghost lv = line_views(lines@);
    let mut prefix = chars_of("{\"id\":\"");
    crate::text::append_str(&mut prefix, cursor);
    crate::text::append_str(&mut prefix, "\"");
    let mut out: Vec<(usize, String)> = Vec::new();
    if lines.len() == 0 {
        return out;
    }
    let mut past = false;
    let mut i: usize = 0;
    while i + 1 < lines.len()
        invariant
            i + 1 <= lines@.len() < usize::MAX,
            lv == line_views(lines@),
            prefix@ == id_prefix(cursor@),
            (past, numbered_views(out@)) == since_of(lv, cursor@, i as int),
        decreases lines@.len() - i,
    {
        let line = &lines[i + 1];
        assert(lv[i + 1] == line@);
        let lc = chars_of(line.as_str());
        if lc.len() > 0 {
            if past {
                let ghost before = out@;
                out.push((i + 2, line.clone()));
                assert(numbered_views(out@) =~= numbered_views(before).push((i + 2, line@)));
            } else if starts_with_exec(&lc, &prefix) {
                past = true;
            }
        }
        i = i + 1;
    }
    out
}

/// The last non-empty entry line (the header excluded).
pub open spec fn last_entry_line(lines: Seq<Seq<char>>, n: int) -> Option<Seq<char>>
    decreases n,
{
    if n <= 1 || n > lines.len() {
        None
    } else if lines[n - 1].len() > 0 {
        Some(lines[n - 1])
    } else {
        last_entry_line(lines, n - 1)
    }
}

/// The leaf's line when no branch choice is persisted: the last non-empty
/// line after the header.
pub fn leaf_line(lines: &[String]) -> (r: Option<String>)
    ensures
        opt_line(r) == last_entry_line(line_views(lines@), lines@.len() as int),
{
    let ghost lv = line_views(lines@);
    let mut n = lines.len();
    while n > 1
        invariant
            n <= lines@.len(),
            lv == line_views(lines@),
            last_entry_line(lv, lines@.len() as int) == last_entry_line(lv, n as int),
        decreases n,
    {
        assert(lv[n - 1] == lines@[n - 1]@);
        if chars_of(lines[n - 1].as_str()).len() > 0 {
            return Some(lines[n - 1].clone());
        }
        n = n - 1;
    }
    None
}

pub open spec fn opt_line(o: Option<String>) -> Option<Seq<char>> {
    match o {
        Some(s) => Some(s@),
        None => None,
    }
}

pub open spec fn seq_views(v: Seq<Vec<char>>) -> Seq<Seq<char>> {
    v.map_values(|p: Vec<char>| p@)
}

/// The file text with its first line replaced: split at every newline,
/// the first piece swapped for `header`, joined back.
pub open spec fn with_header_of(raw: Seq<char>, header: Seq<char>) -> Seq<char> {
    join(split(raw, '\n').update(0, header), seq!['\n'])
}

/// Rewrite the header line of a session file's text; entry lines are
/// never touched.
pub fn with_header(raw: &str, header: &str) -> (r: String)
    ensures
        r@ == with_header_of(raw@, header@),
{
    let mut parts = split_chars(&chars_of(raw), '\n');
    proof {
        crate::text::lemma_split_nonempty(raw@, '\n');
    }
    let ghost before = parts@;
    parts.set(0, chars_of(header));
    assert(seq_views(parts@) =~= split(raw@, '\n').update(0, header@));
    let mut sep: Vec<char> = Vec::new();
    sep.push('\n');
    assert(sep@ =~= seq!['\n']);
    let out = join_chars(&parts, &sep);
    assert(parts@.map_values(|p: Vec<char>| p@) =~= seq_views(parts@));
    string_of(&out)
}

/// A fork's file text: the source's lines with the header line replaced,
/// each ended by a newline; `None` for an empty file.
pub open spec fn fork_text_of(raw: Seq<char>, header: Seq<char>) -> Option<Seq<char>> {
    let ls = lines_of(raw);
    if ls.len() == 0 {
        None
    } else {
        Some(join(ls.update(0, header), seq!['\n']) + seq!['\n'])
    }
}

/// The text of a fork of the session file `raw` under the new header.
pub fn fork_text(raw: &str, header: &str) -> (r: Option<String>)
    ensures
        opt_line(r) == fork_text_of(raw@, header@),
{
    let ls = lines_chars(&chars_of(raw));
    if ls.len() == 0 {
        return None;
    }
    let mut parts = ls;
    let ghost want = lines_of(raw@);
    assert(seq_views(parts@) =~= want);
    parts.set(0, chars_of(header));
    assert(seq_views(parts@) =~= want.update(0, header@));
    let mut sep: Vec<char> = Vec::new();
    sep.push('\n');
    assert(sep@ =~= seq!['\n']);
    let mut out = join_chars(&parts, &sep);
    assert(parts@.map_values(|p: Vec<char>| p@) =~= seq_views(parts@));
    out.push('\n');
    Some(string_of(&out))
}

/// The session id a listed file name carries: the name without its
/// `.jsonl.zst` (archived) or `.jsonl` suffix; `None` for any other file.
pub open spec fn listed_id_of(name: Seq<char>) -> Option<Seq<char>> {
    if ends_with(name, ".jsonl.zst"@) {
        Some(name.take(name.len() - 10))
    } else if ends_with(name, ".jsonl"@) {
        Some(name.take(name.len() - 6))
    } else {
        None
    }
}

/// The session id of a file in the sessions or archive directory.
pub fn listed_id(name: &str) -> (r: Option<String>)
    ensures
        opt_line(r) == listed_id_of(name@),
{
    let v = chars_of(name);
    let zst = chars_of(".jsonl.zst");
    let plain = chars_of(".jsonl");
    proof {
        reveal_strlit(".jsonl.zst");
        reveal_strlit(".jsonl");
    }
    if ends_with_exec(&v, &zst) {
        Some(string_of(&slice_vec(&v, 0, v.len() - 10)))
    } else if ends_with_exec(&v, &plain) {
        Some(string_of(&slice_vec(&v, 0, v.len() - 6)))
    } else {
        None
    }
}

/// A listed file's header belongs to it: a session header naming the
/// file's own id.
pub fn header_belongs(kind: &str, header_id: &str, file_id: &str) -> (r: bool)
    ensures
        r == (kind@ == "session"@ && header_id@ == file_id@),
{
    chars_eq(&chars_of(kind), &chars_of("session")) && chars_eq(&chars_of(header_id), &chars_of(file_id))
}

proof fn lemma_zeros_value(z: Seq<char>)
    requires
        forall|i: int| 0 <= i < z.len() ==> z[i] == '0',
    ensures
        digits_value(z) == 0,
    decreases z.len(),
{
    if z.len() > 0 {
        lemma_zeros_value(z.drop_last());
    }
}

proof fn lemma_padded_value(z: Seq<char>, s: Seq<char>)
    requires
        forall|i: int| 0 <= i < z.len() ==> z[i] == '0',
    ensures
        digits_value(z + s) == digits_value(s),
    decreases s.len(),
{
    if s.len() == 0 {
        assert(z + s =~= z);
        lemma_zeros_value(z);
    } else {
        lemma_padded_value(z, s.drop_last());
        assert((z + s).drop_last() =~= z + s.drop_last());
    }
}

pub(crate) proof fn lemma_decimal_value(n: nat)
    ensures
        digits_value(decimal(n)) == n,
        decimal(n).len() > 0,
        all_digits(decimal(n)),
    decreases n,
{
    let ch = crate::text::digit_char((n % 10) as int);
    assert(ch as nat == 48 + n % 10);
    if n >= 10 {
        lemma_decimal_value(n / 10);
        let d = decimal(n / 10);
        assert(decimal(n) == d.push(ch));
        assert(decimal(n).drop_last() =~= d);
        assert(digits_value(decimal(n)) == digits_value(d) * 10 + ((ch as nat) - 48) as nat);
        assert(((ch as nat) - 48) as nat == n % 10);
        assert(digits_value(d) * 10 == (n / 10) * 10);
        assert((n / 10) * 10 + n % 10 == n);
        assert(all_digits(decimal(n))) by {
            assert forall|i: int| 0 <= i < decimal(n).len() implies is_digit(#[trigger] decimal(n)[i]) by {
                if i < d.len() {
                    assert(decimal(n)[i] == d[i]);
                }
            }
        }
    } else {
        assert(decimal(n) == seq![ch]);
        assert(seq![ch].drop_last() =~= Seq::<char>::empty());
        assert(n % 10 == n);
        assert(digits_value(seq![ch]) == digits_value(Seq::<char>::empty()) * 10 + ((ch as nat) - 48) as nat);
        assert(digits_value(Seq::<char>::empty()) == 0);
    }
}

/// An entry id reads back as its number: the id of entry `n` parses to
/// `n`, so the next number after loading it is past `n`.
pub proof fn lemma_entry_id_round_trip(n: u64)
    ensures
        parsed_u64(entry_id_of(n as nat)) == Some(n as nat),
{
    lemma_decimal_value(n as nat);
    let d = decimal(n as nat);
    let id = entry_id_of(n as nat);
    if d.len() < 8 {
        let z = Seq::new((8 - d.len()) as nat, |i: int| '0');
        assert(id == z + d);
        lemma_padded_value(z, d);
        assert(all_digits(id)) by {
            assert forall|i: int| 0 <= i < id.len() implies is_digit(#[trigger] id[i]) by {
                if i >= z.len() {
                    assert(id[i] == d[i - z.len()]);
                }
            }
        }
    }
    assert(is_digit(id[0]));
    assert(unsigned_part(id) == id);
}

proof fn lemma_join_push(ps: Seq<Seq<char>>, p: Seq<char>, sep: Seq<char>)
    requires
        ps.len() >= 1,
    ensures
        join(ps.push(p), sep) == join(ps, sep) + sep + p,
{
    assert(ps.push(p).drop_last() =~= ps);
}

proof fn lemma_join_split(s: Seq<char>, c: char)
    ensures
        join(split(s, c), seq![c]) == s,
        split(s, c).len() >= 1,
    decreases s.len(),
{
    crate::text::lemma_split_nonempty(s, c);
    if s.len() > 0 {
        let t = s.drop_last();
        let x = s.last();
        lemma_join_split(t, c);
        let prev = split(t, c);
        if x == c {
            lemma_join_push(prev, Seq::empty(), seq![c]);
            assert(s =~= t + seq![c] + Seq::<char>::empty());
        } else {
            let n = prev.len();
            let q = prev.last().push(x);
            if n == 1 {
                assert(prev.update(0, q)[0] == q);
                assert(s =~= join(prev, seq![c]).push(x));
            } else {
                let up = prev.update(n - 1, q);
                assert(up.drop_last() =~= prev.drop_last());
                assert(join(prev, seq![c]) == join(prev.drop_last(), seq![c]) + seq![c] + prev.last());
                assert(join(up, seq![c]) == join(up.drop_last(), seq![c]) + seq![c] + up.last());
                assert(join(up, seq![c]) =~= join(prev, seq![c]).push(x));
            }
        }
    }
}

proof fn lemma_join_prefix(ps: Seq<Seq<char>>, sep: Seq<char>)
    requires
        ps.len() >= 1,
    ensures
        join(ps, sep).len() >= ps[0].len(),
        join(ps, sep).take(ps[0].len() as int) == ps[0],
    decreases ps.len(),
{
    if ps.len() > 1 {
        lemma_join_prefix(ps.drop_last(), sep);
        let j = join(ps.drop_last(), sep);
        assert(join(ps, sep) == j + sep + ps.last());
        assert((j + sep + ps.last()).take(ps[0].len() as int) =~= j.take(ps[0].len() as int));
    }
}

proof fn lemma_join_update_first(ps: Seq<Seq<char>>, h: Seq<char>, sep: Seq<char>)
    requires
        ps.len() >= 1,
    ensures
        join(ps.update(0, h), sep) == h + join(ps, sep).skip(ps[0].len() as int),
    decreases ps.len(),
{
    lemma_join_prefix(ps, sep);
    if ps.len() == 1 {
        assert(join(ps, sep).skip(ps[0].len() as int) =~= Seq::<char>::empty());
        assert(h + Seq::<char>::empty() =~= h);
    } else {
        let ini = ps.drop_last();
        lemma_join_update_first(ini, h, sep);
        lemma_join_prefix(ini, sep);
        let up = ps.update(0, h);
        assert(up.drop_last() =~= ini.update(0, h));
        assert(join(up, sep) == join(up.drop_last(), sep) + sep + up.last());
        let j = join(ini, sep);
        assert(join(ps, sep) == j + sep + ps.last());
        assert((j + sep + ps.last()).skip(ps[0].len() as int) =~= j.skip(ps[0].len() as int) + sep + ps.last());
        assert(h + j.skip(ps[0].len() as int) + sep + ps.last() =~= h + (j.skip(ps[0].len() as int) + sep + ps.last()));
    }
}

proof fn lemma_split_first(s: Seq<char>, c: char)
    ensures
        split(s, c)[0].len() <= s.len(),
        forall|i: int| 0 <= i < split(s, c)[0].len() ==> s[i] != c,
        split(s, c)[0].len() < s.len() ==> s[split(s, c)[0].len() as int] == c,
    decreases s.len(),
{
    crate::text::lemma_split_nonempty(s, c);
    if s.len() > 0 {
        let t = s.drop_last();
        let x = s.last();
        lemma_split_first(t, c);
        crate::text::lemma_split_nonempty(t, c);
        lemma_join_split(t, c);
        let prev = split(t, c);
        let k = prev[0].len() as int;
        assert forall|i: int| 0 <= i < t.len() implies s[i] == t[i] by {}
        if x == c {
            assert(split(s, c) == prev.push(Seq::empty()));
            assert(split(s, c)[0] == prev[0]);
            if k == t.len() {
                assert(s[k] == x);
            }
        } else if prev.len() == 1 {
            assert(join(prev, seq![c]) == prev[0]);
            assert(k == t.len());
            assert(split(s, c)[0] == prev[0].push(x));
            assert forall|i: int| 0 <= i < split(s, c)[0].len() implies s[i] != c by {
                if i < t.len() {
                    assert(s[i] == t[i]);
                } else {
                    assert(s[i] == x);
                }
            }
        } else {
            assert(split(s, c)[0] == prev[0]);
            lemma_join_prefix(prev.drop_last(), seq![c]);
            assert(prev.drop_last()[0] == prev[0]);
            assert(join(prev, seq![c]) == join(prev.drop_last(), seq![c]) + seq![c] + prev.last());
            assert(k < t.len());
        }
    }
}

/// A header rewrite changes the first line only: the result is the new
/// header followed by the old text from its first newline on, and what it
/// replaced is exactly the old first line.
pub proof fn lemma_header_rewrite_keeps_entry_lines(raw: Seq<char>, header: Seq<char>)
    ensures
        ({
            let k = split(raw, '\n')[0].len() as int;
            &&& with_header_of(raw, header) == header + raw.skip(k)
            &&& k <= raw.len()
            &&& forall|i: int| 0 <= i < k ==> raw[i] != '\n'
            &&& k < raw.len() ==> raw[k] == '\n'
        }),
{
    lemma_join_split(raw, '\n');
    lemma_join_update_first(split(raw, '\n'), header, seq!['\n']);
    lemma_split_first(raw, '\n');
}

proof fn lemma_next_number_bounds(ids: Seq<Seq<char>>)
    requires
        forall|i: int| 0 <= i < ids.len() ==> parsed_u64(#[trigger] ids[i]) != Some(u64::MAX as nat),
    ensures
        1 <= next_number_of(ids) <= u64::MAX,
        forall|i: int| 0 <= i < ids.len() ==> (#[trigger] parsed_u64(ids[i]) matches Some(v) ==> v < next_number_of(ids)),
    decreases ids.len(),
{
    if ids.len() > 0 {
        let prev = ids.drop_last();
        assert forall|i: int| 0 <= i < prev.len() implies parsed_u64(#[trigger] prev[i]) != Some(u64::MAX as nat) by {
            assert(prev[i] == ids[i]);
        }
        lemma_next_number_bounds(prev);
        assert forall|i: int| 0 <= i < ids.len() implies (#[trigger] parsed_u64(ids[i]) matches Some(v) ==> v
            < next_number_of(ids)) by {
            if i < prev.len() {
                assert(prev[i] == ids[i]);
            }
        }
        let last = ids[ids.len() - 1];
        assert(parsed_u64(last) != Some(u64::MAX as nat));
        match parsed_u64(last) {
            Some(v) => {
                assert(v <= u64::MAX);
            },
            None => {},
        }
    }
}

/// The next entry id is fresh: the id made of the next number is none of
/// the loaded entries' ids (every entry number is below it).
pub proof fn lemma_next_id_is_fresh(ids: Seq<Seq<char>>)
    requires
        forall|i: int| 0 <= i < ids.len() ==> parsed_u64(#[trigger] ids[i]) != Some(u64::MAX as nat),
    ensures
        !ids.contains(entry_id_of(next_number_of(ids))),
{
    lemma_next_number_bounds(ids);
    let n = next_number_of(ids);
    lemma_entry_id_round_trip(n as u64);
    if ids.contains(entry_id_of(n)) {
        let i = choose|i: int| 0 <= i < ids.len() && ids[i] == entry_id_of(n);
        assert(parsed_u64(ids[i]) == Some(n));
    }
}

} // verus!
