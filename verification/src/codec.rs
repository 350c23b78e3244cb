//! The metadata document format: a pretty-printed JSON array of records,
//! each an object with a string field `filename` and an unsigned-integer
//! field `size`. `render_doc` gives the exact text written for an index;
//! `parse_doc` reads such a text back. The round trip is proved: parsing
//! a rendered index yields the index again, losslessly.
//!
//! Names are escaped so that any string round-trips: `"` and `\` get a
//! backslash escape, control characters become `\u00xx`.

use vstd::prelude::*;
use crate::digits::{
    dec_digits, dec_val, digit_char, digit_prefix_len, digit_val, is_digit, lemma_dec_digits_val,
    lemma_dec_val_monotone, lemma_digit_prefix_len_bound, lemma_digit_prefix_len_is,
    lemma_digit_prefix_of_concat, push_dec,
};
use crate::meta::{recs_of, FileMeta, RecV};
use crate::strings::{chars_to_string, lemma_char_scalar, push_str_chars, str_chars};

verus! {

// ---------------------------------------------------------------------------
// The fixed pieces of the document text.
// ---------------------------------------------------------------------------
/// The whole document when the index is empty.
pub open spec fn doc_empty() -> Seq<char> {
    "[]"@
}

/// Opens the array before the first entry.
pub open spec fn doc_head() -> Seq<char> {
    "[\n"@
}

/// Closes the array after the last entry.
pub open spec fn doc_tail() -> Seq<char> {
    "\n]"@
}

/// Opens one entry, up to and including the opening quote of the name.
pub open spec fn entry_head() -> Seq<char> {
    "  {\n    \"filename\": \""@
}

/// Follows the closing quote of the name, up to the size's digits.
pub open spec fn entry_mid() -> Seq<char> {
    ",\n    \"size\": "@
}

/// Closes one entry after the size's digits.
pub open spec fn entry_tail() -> Seq<char> {
    "\n  }"@
}

/// Stands between two entries.
pub open spec fn entry_sep() -> Seq<char> {
    ",\n"@
}

// ---------------------------------------------------------------------------
// Escaping.
// ---------------------------------------------------------------------------
/// The character for one hexadecimal digit value, lower case.
pub open spec fn hex_char(d: int) -> char
    recommends
        0 <= d < 16,
{
    if d < 10 {
        digit_char(d)
    } else {
        ((87 + d) as u8) as char
    }
}

/// Whether `c` is a lower-case hexadecimal digit.
pub open spec fn is_hex(c: char) -> bool {
    (48 <= c as int && c as int <= 57) || (97 <= c as int && c as int <= 102)
}

/// The value of one lower-case hexadecimal digit character.
pub open spec fn hex_val(c: char) -> int {
    if 48 <= c as int && c as int <= 57 {
        c as int - 48
    } else {
        c as int - 87
    }
}

/// How one character of a name is written inside the quotes.
pub open spec fn esc_char(c: char) -> Seq<char> {
    if c == '"' {
        seq!['\\', '"']
    } else if c == '\\' {
        seq!['\\', '\\']
    } else if (c as int) < 32 {
        seq!['\\', 'u', '0', '0', hex_char(c as int / 16), hex_char(c as int % 16)]
    } else {
        seq![c]
    }
}

/// How a whole name is written inside the quotes.
pub open spec fn esc_str(s: Seq<char>) -> Seq<char>
    decreases s.len(),
{
    if s.len() == 0 {
        Seq::empty()
    } else {
        esc_char(s[0]) + esc_str(s.skip(1))
    }
}

// ---------------------------------------------------------------------------
// Rendering.
// ---------------------------------------------------------------------------
/// The text of one entry.
pub open spec fn render_rec(r: RecV) -> Seq<char> {
    entry_head() + esc_str(r.name) + seq!['"'] + entry_mid() + dec_digits(r.size as nat)
        + entry_tail()
}

/// The text of one or more entries, separated.
pub open spec fn render_entries(rs: Seq<RecV>) -> Seq<char>
    recommends
        rs.len() >= 1,
    decreases rs.len(),
{
    if rs.len() <= 1 {
        render_rec(rs[0])
    } else {
        render_rec(rs[0]) + entry_sep() + render_entries(rs.skip(1))
    }
}

/// The whole document text for an index.
pub open spec fn render_doc(rs: Seq<RecV>) -> Seq<char> {
    if rs.len() == 0 {
        doc_empty()
    } else {
        doc_head() + render_entries(rs) + doc_tail()
    }
}

// ---------------------------------------------------------------------------
// Parsing.
// ---------------------------------------------------------------------------
/// Consumes `lit` from the front of `s`.
pub open spec fn strip_lit(s: Seq<char>, lit: Seq<char>) -> Option<Seq<char>> {
    if lit.len() <= s.len() && s.take(lit.len() as int) == lit {
        Some(s.skip(lit.len() as int))
    } else {
        None
    }
}

/// Reads a quoted name from after its opening quote, through its closing
/// quote: the name's characters, and the rest after the closing quote.
pub open spec fn parse_string(s: Seq<char>) -> Option<(Seq<char>, Seq<char>)>
    decreases s.len(),
{
    if s.len() == 0 {
        None
    } else if s[0] == '"' {
        Some((Seq::empty(), s.skip(1)))
    } else if s[0] == '\\' {
        if s.len() >= 6 && s[1] == 'u' && s[2] == '0' && s[3] == '0' && is_hex(s[4]) && is_hex(
            s[5],
        ) && hex_val(s[4]) * 16 + hex_val(s[5]) < 32 {
            match parse_string(s.skip(6)) {
                Some((more, rest)) => Some(
                    (seq![((hex_val(s[4]) * 16 + hex_val(s[5])) as u8) as char] + more, rest),
                ),
                None => None,
            }
        } else if s.len() >= 2 && (s[1] == '"' || s[1] == '\\') {
            match parse_string(s.skip(2)) {
                Some((more, rest)) => Some((seq![s[1]] + more, rest)),
                None => None,
            }
        } else {
            None
        }
    } else if (s[0] as int) < 32 {
        None
    } else {
        match parse_string(s.skip(1)) {
            Some((more, rest)) => Some((seq![s[0]] + more, rest)),
            None => None,
        }
    }
}

/// Reads a size: the longest digit prefix, as a `u64`.
pub open spec fn parse_dec(s: Seq<char>) -> Option<(u64, Seq<char>)> {
    let l = digit_prefix_len(s) as int;
    if l == 0 {
        None
    } else if dec_val(s.take(l)) > u64::MAX {
        None
    } else {
        Some((dec_val(s.take(l)) as u64, s.skip(l)))
    }
}

/// Reads one entry: its record, and the rest after the entry.
pub open spec fn parse_entry(s: Seq<char>) -> Option<(RecV, Seq<char>)> {
    match strip_lit(s, entry_head()) {
        None => None,
        Some(s1) => match parse_string(s1) {
            None => None,
            Some((name, s2)) => match strip_lit(s2, entry_mid()) {
                None => None,
                Some(s3) => match parse_dec(s3) {
                    None => None,
                    Some((size, s4)) => match strip_lit(s4, entry_tail()) {
                        None => None,
                        Some(s5) => Some((RecV { name, size }, s5)),
                    },
                },
            },
        },
    }
}

/// Reads one or more entries followed by the closing of the array,
/// consuming all of `s`.
pub open spec fn parse_entries(s: Seq<char>) -> Option<Seq<RecV>>
    decreases s.len(),
    via parse_entries_decreases
{
    match parse_entry(s) {
        None => None,
        Some((r, rest)) => {
            if rest == doc_tail() {
                Some(seq![r])
            } else {
                match strip_lit(rest, entry_sep()) {
                    None => None,
                    Some(rest2) => match parse_entries(rest2) {
                        None => None,
                        Some(rs) => Some(seq![r] + rs),
                    },
                }
            }
        },
    }
}

/// The index a document text denotes, if it is well formed.
pub open spec fn parse_doc(s: Seq<char>) -> Option<Seq<RecV>> {
    if s == doc_empty() {
        Some(Seq::empty())
    } else {
        match strip_lit(s, doc_head()) {
            None => None,
            Some(s1) => parse_entries(s1),
        }
    }
}

// ---------------------------------------------------------------------------
// Each parsing step consumes text.
// ---------------------------------------------------------------------------
pub proof fn lemma_parse_string_len(s: Seq<char>)
    ensures
        match parse_string(s) {
            Some((name, rest)) => rest.len() < s.len(),
            None => true,
        },
    decreases s.len(),
{
    if s.len() == 0 {
    } else if s[0] == '"' {
    } else if s[0] == '\\' {
        if s.len() >= 6 && s[1] == 'u' && s[2] == '0' && s[3] == '0' && is_hex(s[4]) && is_hex(
            s[5],
        ) && hex_val(s[4]) * 16 + hex_val(s[5]) < 32 {
            lemma_parse_string_len(s.skip(6));
        } else if s.len() >= 2 && (s[1] == '"' || s[1] == '\\') {
            lemma_parse_string_len(s.skip(2));
        }
    } else {
        lemma_parse_string_len(s.skip(1));
    }
}

pub proof fn lemma_parse_entry_len(s: Seq<char>)
    ensures
        match parse_entry(s) {
            Some((r, rest)) => rest.len() < s.len(),
            None => true,
        },
{
    reveal_strlit("  {\n    \"filename\": \"");
    if parse_entry(s) is Some {
        let s1 = strip_lit(s, entry_head()).unwrap();
        lemma_parse_string_len(s1);
        let (name, s2) = parse_string(s1).unwrap();
        let s3 = strip_lit(s2, entry_mid()).unwrap();
        let l = digit_prefix_len(s3) as int;
        lemma_digit_prefix_len_bound(s3);
        let s4 = parse_dec(s3).unwrap().1;
        let s5 = strip_lit(s4, entry_tail()).unwrap();
        assert(entry_head().len() > 0);
        assert(s5.len() < s.len());
    }
}

#[via_fn]
proof fn parse_entries_decreases(s: Seq<char>) {
    lemma_parse_entry_len(s);
}

// ---------------------------------------------------------------------------
// Round trip: parsing a rendered document yields the index it was
// rendered from.
// ---------------------------------------------------------------------------
pub proof fn lemma_strip_lit_concat(lit: Seq<char>, t: Seq<char>)
    ensures
        strip_lit(lit + t, lit) == Some(t),
{
    assert((lit + t).take(lit.len() as int) =~= lit);
    assert((lit + t).skip(lit.len() as int) =~= t);
}

/// A hexadecimal digit character reads back as its value.
pub proof fn lemma_hex_char(d: int)
    requires
        0 <= d < 16,
    ensures
        is_hex(hex_char(d)),
        hex_val(hex_char(d)) == d,
{
}

/// An escaped name between its quotes, followed by the closing quote,
/// reads back as the name.
pub proof fn lemma_parse_string_esc(name: Seq<char>, tail: Seq<char>)
    ensures
        parse_string(esc_str(name) + seq!['"'] + tail) == Some((name, tail)),
    decreases name.len(),
{
    if name.len() == 0 {
        assert(esc_str(name) + seq!['"'] + tail =~= seq!['"'] + tail);
        let s = seq!['"'] + tail;
        assert(s[0] == '"');
        assert(s.skip(1) =~= tail);
    } else {
        let c = name[0];
        let rest = esc_str(name.skip(1)) + seq!['"'] + tail;
        let s = esc_str(name) + seq!['"'] + tail;
        assert(s =~= esc_char(c) + rest);
        lemma_parse_string_esc(name.skip(1), tail);
        if c == '"' {
            assert(s[0] == '\\' && s[1] == '"');
            assert(s.skip(2) =~= rest);
            assert(seq![c] + name.skip(1) =~= name);
        } else if c == '\\' {
            assert(s[0] == '\\' && s[1] == '\\');
            assert(s.skip(2) =~= rest);
            assert(seq![c] + name.skip(1) =~= name);
        } else if (c as int) < 32 {
            lemma_char_nonneg(c);
            let hi = hex_char(c as int / 16);
            let lo = hex_char(c as int % 16);
            lemma_hex_char(c as int / 16);
            lemma_hex_char(c as int % 16);
            assert(s[0] == '\\' && s[1] == 'u' && s[2] == '0' && s[3] == '0');
            assert(s[4] == hi && s[5] == lo);
            assert(hex_val(hi) * 16 + hex_val(lo) == c as int);
            assert(s.len() >= 6);
            assert(s.skip(6) =~= rest);
            assert((((c as int) as u8) as char) == c) by {
                vstd::utf8::char_is_scalar(c);
                vstd::utf8::char_u32_cast(c, c as u32);
            }
            assert(seq![c] + name.skip(1) =~= name);
        } else {
            assert(s[0] == c);
            assert(s.skip(1) =~= rest);
            assert(seq![c] + name.skip(1) =~= name);
        }
    }
}

/// A numeral followed by a non-digit reads back as its value.
pub proof fn lemma_parse_dec_concat(n: u64, tail: Seq<char>)
    requires
        tail.len() > 0,
        !is_digit(tail[0]),
    ensures
        parse_dec(dec_digits(n as nat) + tail) == Some((n, tail)),
{
    let ds = dec_digits(n as nat);
    let s = ds + tail;
    lemma_dec_digits_val(n as nat);
    lemma_digit_prefix_of_concat(ds, tail);
    assert(s.take(ds.len() as int) =~= ds);
    assert(s.skip(ds.len() as int) =~= tail);
}

/// One rendered entry, followed by anything, reads back as its record.
pub proof fn lemma_parse_entry_render(r: RecV, tail: Seq<char>)
    ensures
        parse_entry(render_rec(r) + tail) == Some((r, tail)),
{
    reveal_strlit("  {\n    \"filename\": \"");
    reveal_strlit(",\n    \"size\": ");
    reveal_strlit("\n  }");
    let s = render_rec(r) + tail;
    let after_head = esc_str(r.name) + seq!['"'] + (entry_mid() + (dec_digits(r.size as nat) + (
    entry_tail() + tail)));
    assert(s =~= entry_head() + after_head);
    lemma_strip_lit_concat(entry_head(), after_head);
    let mid_on = entry_mid() + (dec_digits(r.size as nat) + (entry_tail() + tail));
    assert(after_head =~= esc_str(r.name) + seq!['"'] + mid_on);
    lemma_parse_string_esc(r.name, mid_on);
    lemma_strip_lit_concat(entry_mid(), dec_digits(r.size as nat) + (entry_tail() + tail));
    let after_digits = entry_tail() + tail;
    assert(after_digits.len() > 0);
    assert(after_digits[0] == '\n');
    assert(!is_digit('\n'));
    lemma_parse_dec_concat(r.size, after_digits);
    lemma_strip_lit_concat(entry_tail(), tail);
    assert(RecV { name: r.name, size: r.size } == r);
}

/// Rendered entries followed by the array's closing read back as the records.
pub proof fn lemma_parse_entries_render(rs: Seq<RecV>)
    requires
        rs.len() >= 1,
    ensures
        parse_entries(render_entries(rs) + doc_tail()) == Some(rs),
    decreases rs.len(),
{
    reveal_strlit("  {\n    \"filename\": \"");
    reveal_strlit("\n]");
    reveal_strlit(",\n");
    if rs.len() == 1 {
        lemma_parse_entry_render(rs[0], doc_tail());
        assert(render_entries(rs) + doc_tail() =~= render_rec(rs[0]) + doc_tail());
        assert(seq![rs[0]] =~= rs);
    } else {
        let more = entry_sep() + (render_entries(rs.skip(1)) + doc_tail());
        assert(render_entries(rs) + doc_tail() =~= render_rec(rs[0]) + more);
        lemma_parse_entry_render(rs[0], more);
        assert(render_entries(rs.skip(1)).len() >= entry_head().len()) by {
            lemma_render_entries_min_len(rs.skip(1));
        }
        assert(more.len() > doc_tail().len());
        assert(more != doc_tail());
        lemma_strip_lit_concat(entry_sep(), render_entries(rs.skip(1)) + doc_tail());
        lemma_parse_entries_render(rs.skip(1));
        assert(seq![rs[0]] + rs.skip(1) =~= rs);
    }
}

/// Rendered entries are at least one entry opening long.
pub proof fn lemma_render_entries_min_len(rs: Seq<RecV>)
    requires
        rs.len() >= 1,
    ensures
        render_entries(rs).len() >= entry_head().len(),
    decreases rs.len(),
{
}

/// The round trip: parsing the rendered document of any index yields
/// exactly that index.
pub proof fn lemma_parse_render_doc(rs: Seq<RecV>)
    ensures
        parse_doc(render_doc(rs)) == Some(rs),
{
    reveal_strlit("[]");
    reveal_strlit("[\n");
    reveal_strlit("\n]");
    reveal_strlit("  {\n    \"filename\": \"");
    if rs.len() == 0 {
        assert(render_doc(rs) == doc_empty());
        assert(parse_doc(doc_empty()) == Some(Seq::<RecV>::empty()));
        assert(rs =~= Seq::<RecV>::empty());
    } else {
        let s = render_doc(rs);
        lemma_render_entries_min_len(rs);
        assert(s.len() >= doc_head().len() + entry_head().len() + doc_tail().len());
        assert(s != doc_empty());
        assert(s =~= doc_head() + (render_entries(rs) + doc_tail()));
        lemma_strip_lit_concat(doc_head(), render_entries(rs) + doc_tail());
        lemma_parse_entries_render(rs);
    }
}

/// A character's scalar value is not negative.
pub proof fn lemma_char_nonneg(c: char)
    ensures
        0 <= c as int,
{
    assert(c as u32 >= 0);
    assert(c as int == c as u32 as int);
}

// ---------------------------------------------------------------------------
// The executable renderer.
// ---------------------------------------------------------------------------
/// The character for one hexadecimal digit value, lower case.
fn hex_digit(d: u8) -> (c: char)
    requires
        d < 16,
    ensures
        c == hex_char(d as int),
{
    if d < 10 {
        (48 + d) as char
    } else {
        (87 + d) as char
    }
}

/// Appends the escaped characters of `s`, from position `i` on, to `out`.
fn push_escaped_from(s: &str, i: usize, out: &mut Vec<char>)
    requires
        i <= s@.len(),
    ensures
        final (out)@ == old(out)@ + esc_str(s@.skip(i as int)),
    decreases s@.len() - i,
{
    let ghost orig = out@;
    if i < s.unicode_len() {
        let c = s.get_char(i);
        proof {
            lemma_char_scalar(c);
        }
        if c == '"' {
            out.push('\\');
            out.push('"');
        } else if c == '\\' {
            out.push('\\');
            out.push('\\');
        } else if (c as u32) < 32 {
            let v = c as u32;
            out.push('\\');
            out.push('u');
            out.push('0');
            out.push('0');
            out.push(hex_digit((v / 16) as u8));
            out.push(hex_digit((v % 16) as u8));
        } else {
            out.push(c);
        }
        proof {
            assert(out@ =~= orig + esc_char(s@[i as int]));
        }
        push_escaped_from(s, i + 1, out);
        proof {
            assert(esc_str(s@.skip(i as int)) == esc_char(s@.skip(i as int)[0]) + esc_str(
                s@.skip(i as int).skip(1),
            ));
            assert(s@.skip(i as int)[0] == s@[i as int]);
            assert(s@.skip(i as int).skip(1) =~= s@.skip(i as int + 1));
            assert(out@ =~= orig + esc_str(s@.skip(i as int)));
        }
    } else {
        proof {
            assert(s@.skip(i as int).len() == 0);
            assert(orig + esc_str(s@.skip(i as int)) =~= orig);
        }
    }
}

/// Appends the text of one entry to `out`.
fn push_entry(m: &FileMeta, out: &mut Vec<char>)
    ensures
        final (out)@ == old(out)@ + render_rec(m@),
{
    let ghost orig = out@;
    push_str_chars("  {\n    \"filename\": \"", out);
    push_escaped_from(m.filename.as_str(), 0, out);
    out.push('"');
    push_str_chars(",\n    \"size\": ", out);
    push_dec(m.size, out);
    push_str_chars("\n  }", out);
    proof {
        assert(m.filename@.skip(0) =~= m.filename@);
        assert(out@ =~= orig + render_rec(m@));
    }
}

/// Appends the text of the entries from position `i` on, separated, to `out`.
fn push_entries_from(recs: &Vec<FileMeta>, i: usize, out: &mut Vec<char>)
    requires
        i < recs.len(),
    ensures
        final (out)@ == old(out)@ + render_entries(recs_of(recs@).skip(i as int)),
    decreases recs.len() - i,
{
    let ghost orig = out@;
    let ghost rs = recs_of(recs@).skip(i as int);
    proof {
        assert(rs[0] == recs@[i as int]@);
    }
    push_entry(&recs[i], out);
    if i + 1 < recs.len() {
        push_str_chars(",\n", out);
        push_entries_from(recs, i + 1, out);
        proof {
            assert(recs_of(recs@).skip(i as int + 1) =~= rs.skip(1));
            assert(rs.len() > 1);
            assert(render_entries(rs) == render_rec(rs[0]) + entry_sep() + render_entries(
                rs.skip(1),
            ));
            assert(out@ =~= orig + render_entries(rs));
        }
    } else {
        proof {
            assert(rs.len() == 1);
            assert(render_entries(rs) == render_rec(rs[0]));
            assert(out@ =~= orig + render_entries(rs));
        }
    }
}

/// The exact text of the metadata document for the given index.
pub fn render_index(recs: &Vec<FileMeta>) -> (r: String)
    ensures
        r@ == render_doc(recs_of(recs@)),
{
    let mut out: Vec<char> = Vec::new();
    if recs.len() == 0 {
        push_str_chars("[]", &mut out);
        proof {
            assert(out@ =~= render_doc(recs_of(recs@)));
        }
    } else {
        push_str_chars("[\n", &mut out);
        push_entries_from(recs, 0, &mut out);
        push_str_chars("\n]", &mut out);
        proof {
            assert(recs_of(recs@).skip(0) =~= recs_of(recs@));
            assert(out@ =~= render_doc(recs_of(recs@)));
        }
    }
    chars_to_string(&out)
}

// ---------------------------------------------------------------------------
// The executable parser.
// ---------------------------------------------------------------------------
/// Whether `c` is a decimal digit.
fn is_digit_x(c: char) -> (r: bool)
    ensures
        r == is_digit(c),
{
    proof {
        lemma_char_scalar(c);
    }
    let u = c as u32;
    48 <= u && u <= 57
}

/// Whether `c` is a lower-case hexadecimal digit.
fn is_hex_x(c: char) -> (r: bool)
    ensures
        r == is_hex(c),
{
    proof {
        lemma_char_scalar(c);
    }
    let u = c as u32;
    (48 <= u && u <= 57) || (97 <= u && u <= 102)
}

/// The value of one lower-case hexadecimal digit character.
fn hex_val_x(c: char) -> (r: u8)
    requires
        is_hex(c),
    ensures
        r as int == hex_val(c),
        r < 16,
{
    proof {
        lemma_char_scalar(c);
    }
    let u = c as u32;
    if u <= 57 {
        (u - 48) as u8
    } else {
        (u - 87) as u8
    }
}

/// Consumes `lit` at position `i`: the position after it, if it is there.
fn match_lit(v: &Vec<char>, i: usize, lit: &str) -> (r: Option<usize>)
    requires
        i <= v.len(),
    ensures
        match r {
            Some(j) => i <= j <= v.len() && strip_lit(v@.skip(i as int), lit@) == Some(
                v@.skip(j as int),
            ),
            None => strip_lit(v@.skip(i as int), lit@) is None,
        },
{
    let ghost s = v@.skip(i as int);
    let n = lit.unicode_len();
    if n > v.len() - i {
        return None;
    }
    let mut k: usize = 0;
    while k < n
        invariant
            k <= n,
            i <= v.len(),
            n == lit@.len(),
            i + n <= v.len(),
            s == v@.skip(i as int),
            forall|t: int| 0 <= t < k ==> v@[i + t] == lit@[t],
        decreases n - k,
    {
        if v[i + k] != lit.get_char(k) {
            proof {
                assert(s.take(n as int)[k as int] == v@[i + k]);
            }
            return None;
        }
        k += 1;
    }
    proof {
        assert(s.take(n as int) =~= lit@);
        assert(s.skip(n as int) =~= v@.skip(i + n));
    }
    Some(i + n)
}

/// Reads a quoted name at position `i` (after its opening quote), through
/// its closing quote, appending the name's characters to `out`.
fn parse_string_at(v: &Vec<char>, i: usize, out: &mut Vec<char>) -> (r: Option<usize>)
    requires
        i <= v.len(),
    ensures
        match r {
            Some(j) => i <= j <= v.len() && {
                let p = parse_string(v@.skip(i as int));
                &&& p is Some
                &&& final (out)@ == old(out)@ + p.unwrap().0
                &&& p.unwrap().1 == v@.skip(j as int)
            },
            None => parse_string(v@.skip(i as int)) is None,
        },
    decreases v.len() - i,
{
    let ghost s = v@.skip(i as int);
    let ghost orig = out@;
    if v.len() - i == 0 {
        return None;
    }
    let c = v[i];
    assert(s[0] == c);
    if c == '"' {
        proof {
            assert(s.skip(1) =~= v@.skip(i as int + 1));
            assert(orig + Seq::<char>::empty() =~= orig);
        }
        return Some(i + 1);
    }
    if c == '\\' {
        if v.len() - i >= 6 && v[i + 1] == 'u' && v[i + 2] == '0' && v[i + 3] == '0' && is_hex_x(
            v[i + 4],
        ) && is_hex_x(v[i + 5]) {
            proof {
                assert(s[1] == v@[i + 1]);
                assert(s[2] == v@[i + 2]);
                assert(s[3] == v@[i + 3]);
                assert(s[4] == v@[i + 4]);
                assert(s[5] == v@[i + 5]);
            }
            let hv: u8 = hex_val_x(v[i + 4]) * 16 + hex_val_x(v[i + 5]);
            if hv < 32 {
                out.push(hv as char);
                let rec = parse_string_at(v, i + 6, out);
                proof {
                    assert(s.skip(6) =~= v@.skip(i as int + 6));
                }
                match rec {
                    Some(j) => {
                        proof {
                            let p6 = parse_string(s.skip(6)).unwrap();
                            assert(out@ =~= orig + (seq![(hv as int as u8) as char] + p6.0));
                            assert((hv as int as u8) as char == (hex_val(s[4]) * 16 + hex_val(
                                s[5],
                            )) as u8 as char);
                        }
                        return Some(j);
                    },
                    None => {
                        return None;
                    },
                }
            } else {
                return None;
            }
        } else if v.len() - i >= 2 && (v[i + 1] == '"' || v[i + 1] == '\\') {
            proof {
                assert(s[1] == v@[i + 1]);
            }
            out.push(v[i + 1]);
            let rec = parse_string_at(v, i + 2, out);
            proof {
                assert(s.skip(2) =~= v@.skip(i as int + 2));
            }
            match rec {
                Some(j) => {
                    proof {
                        let p2 = parse_string(s.skip(2)).unwrap();
                        assert(out@ =~= orig + (seq![s[1]] + p2.0));
                    }
                    return Some(j);
                },
                None => {
                    return None;
                },
            }
        } else {
            proof {
                if v.len() - i >= 6 {
                    assert(s[1] == v@[i + 1]);
                    assert(s[2] == v@[i + 2]);
                    assert(s[3] == v@[i + 3]);
                    assert(s[4] == v@[i + 4]);
                    assert(s[5] == v@[i + 5]);
                }
                if v.len() - i >= 2 {
                    assert(s[1] == v@[i + 1]);
                }
            }
            return None;
        }
    }
    proof {
        lemma_char_scalar(c);
    }
    if (c as u32) < 32 {
        return None;
    }
    out.push(c);
    let rec = parse_string_at(v, i + 1, out);
    proof {
        assert(s.skip(1) =~= v@.skip(i as int + 1));
    }
    match rec {
        Some(j) => {
            proof {
                let p1 = parse_string(s.skip(1)).unwrap();
                assert(out@ =~= orig + (seq![s[0]] + p1.0));
            }
            Some(j)
        },
        None => None,
    }
}

/// Reads a size at position `i`: its value and the position after its digits.
fn parse_dec_at(v: &Vec<char>, i: usize) -> (r: Option<(u64, usize)>)
    requires
        i <= v.len(),
    ensures
        match r {
            Some(p) => i <= p.1 <= v.len() && parse_dec(v@.skip(i as int)) == Some(
                (p.0, v@.skip(p.1 as int)),
            ),
            None => parse_dec(v@.skip(i as int)) is None,
        },
{
    let ghost s = v@.skip(i as int);
    let mut l: usize = 0;
    while i + l < v.len() && is_digit_x(v[i + l])
        invariant
            i <= v.len(),
            i + l <= v.len(),
            s == v@.skip(i as int),
            forall|t: int| 0 <= t < l ==> is_digit(#[trigger] s[t]),
        decreases v.len() - i - l,
    {
        proof {
            assert(s[l as int] == v@[i + l]);
        }
        l += 1;
    }
    proof {
        if (i + l) < v.len() {
            assert(s[l as int] == v@[i + l]);
        }
        lemma_digit_prefix_len_is(s, l as int);
    }
    if l == 0 {
        return None;
    }
    let mut acc: u64 = 0;
    let mut k: usize = 0;
    while k < l
        invariant
            k <= l,
            i + l <= v.len(),
            s == v@.skip(i as int),
            l == digit_prefix_len(s),
            forall|t: int| 0 <= t < l ==> is_digit(#[trigger] s[t]),
            acc == dec_val(s.take(k as int)),
        decreases l - k,
    {
        let c = v[i + k];
        proof {
            assert(s[k as int] == v@[i + k]);
            lemma_char_scalar(c);
        }
        let d = (c as u32 - 48) as u64;
        assert(d as int == digit_val(s[k as int]));
        proof {
            assert(s.take(k as int + 1).drop_last() =~= s.take(k as int));
            assert(s.take(k as int + 1).last() == s[k as int]);
            assert(dec_val(s.take(k as int + 1)) == acc * 10 + d);
        }
        if acc > (u64::MAX - d) / 10 {
            proof {
                let f = (u64::MAX - d) as int / 10;
                assert(10 * f + (u64::MAX - d) as int % 10 == (u64::MAX - d) as int);
                assert(acc * 10 >= (f + 1) * 10) by (nonlinear_arith)
                    requires
                        acc as int >= f + 1,
                ;
                assert(acc * 10 + d > u64::MAX);
                lemma_dec_val_monotone(s, k as int + 1, l as int);
                assert(dec_val(s.take(l as int)) > u64::MAX);
            }
            return None;
        }
        proof {
            let f = (u64::MAX - d) as int / 10;
            assert(10 * f + (u64::MAX - d) as int % 10 == (u64::MAX - d) as int);
            assert(acc * 10 <= f * 10) by (nonlinear_arith)
                requires
                    acc as int <= f,
            ;
            assert(acc * 10 + d <= u64::MAX);
        }
        acc = acc * 10 + d;
        k += 1;
    }
    proof {
        assert(s.skip(l as int) =~= v@.skip(i + l));
    }
    Some((acc, i + l))
}

/// Reads one entry at position `i`: its record and the position after it.
fn parse_entry_at(v: &Vec<char>, i: usize) -> (r: Option<(FileMeta, usize)>)
    requires
        i <= v.len(),
    ensures
        match r {
            Some(p) => i <= p.1 <= v.len() && parse_entry(v@.skip(i as int)) == Some(
                (p.0@, v@.skip(p.1 as int)),
            ),
            None => parse_entry(v@.skip(i as int)) is None,
        },
{
    let j1 = match match_lit(v, i, "  {\n    \"filename\": \"") {
        None => {
            return None;
        },
        Some(j) => j,
    };
    let mut name_chars: Vec<char> = Vec::new();
    let j2 = match parse_string_at(v, j1, &mut name_chars) {
        None => {
            return None;
        },
        Some(j) => j,
    };
    let j3 = match match_lit(v, j2, ",\n    \"size\": ") {
        None => {
            return None;
        },
        Some(j) => j,
    };
    let (size, j4) = match parse_dec_at(v, j3) {
        None => {
            return None;
        },
        Some(p) => p,
    };
    let j5 = match match_lit(v, j4, "\n  }") {
        None => {
            return None;
        },
        Some(j) => j,
    };
    let m = FileMeta { filename: chars_to_string(&name_chars), size };
    proof {
        assert(m@ == RecV { name: name_chars@, size });
    }
    Some((m, j5))
}

/// Reads one or more entries at position `i`, followed by the closing of
/// the array, consuming the input to its end.
fn parse_entries_at(v: &Vec<char>, i: usize) -> (r: Option<Vec<FileMeta>>)
    requires
        i <= v.len(),
    ensures
        match r {
            Some(ms) => parse_entries(v@.skip(i as int)) == Some(recs_of(ms@)),
            None => parse_entries(v@.skip(i as int)) is None,
        },
    decreases v.len() - i,
{
    let (m, j) = match parse_entry_at(v, i) {
        None => {
            return None;
        },
        Some(p) => p,
    };
    proof {
        lemma_parse_entry_len(v@.skip(i as int));
        reveal_strlit("\n]");
    }
    if v.len() - j == 2 && v[j] == '\n' && v[j + 1] == ']' {
        proof {
            assert(v@.skip(j as int) =~= doc_tail());
        }
        let mut ms: Vec<FileMeta> = Vec::new();
        ms.push(m);
        proof {
            assert(recs_of(ms@) =~= seq![m@]);
        }
        return Some(ms);
    }
    proof {
        if v@.skip(j as int) == doc_tail() {
            assert(v@.skip(j as int).len() == 2);
            assert(v@[j as int] == v@.skip(j as int)[0]);
            assert(v@[j as int + 1] == v@.skip(j as int)[1]);
            assert(false);
        }
    }
    let j2 = match match_lit(v, j, ",\n") {
        None => {
            return None;
        },
        Some(j2) => j2,
    };
    let mut rest = match parse_entries_at(v, j2) {
        None => {
            return None;
        },
        Some(ms) => ms,
    };
    let mut ms: Vec<FileMeta> = Vec::new();
    ms.push(m);
    let ghost rest_view = rest@;
    ms.append(&mut rest);
    proof {
        assert(recs_of(ms@) =~= seq![m@] + recs_of(rest_view));
    }
    Some(ms)
}

/// The index a document text denotes, if it is a well-formed document.
pub fn parse_index(doc: &str) -> (r: Option<Vec<FileMeta>>)
    ensures
        match r {
            Some(ms) => parse_doc(doc@) == Some(recs_of(ms@)),
            None => parse_doc(doc@) is None,
        },
{
    let v = str_chars(doc);
    proof {
        reveal_strlit("[]");
    }
    if v.len() == 2 {
        if v[0] == '[' && v[1] == ']' {
            proof {
                assert(doc@ =~= doc_empty());
            }
            let ms: Vec<FileMeta> = Vec::new();
            proof {
                assert(recs_of(ms@) =~= Seq::<RecV>::empty());
            }
            return Some(ms);
        }
    }
    proof {
        if doc@ == doc_empty() {
            assert(v@.len() == 2);
            assert(v@[0] == doc_empty()[0]);
            assert(v@[1] == doc_empty()[1]);
            assert(false);
        }
    }
    let j = match match_lit(&v, 0, "[\n") {
        None => {
            proof {
                assert(v@.skip(0) =~= doc@);
            }
            return None;
        },
        Some(j) => j,
    };
    proof {
        assert(v@.skip(0) =~= doc@);
    }
    parse_entries_at(&v, j)
}

/// The index a document text denotes; an ill-formed text reads as the
/// empty index rather than as an error.
pub open spec fn lenient_recs(text: Seq<char>) -> Seq<RecV> {
    match parse_doc(text) {
        Some(rs) => rs,
        None => Seq::<RecV>::empty(),
    }
}

/// Reads a document leniently: an ill-formed text gives the empty index.
pub fn parse_index_lenient(doc: &str) -> (r: Vec<FileMeta>)
    ensures
        recs_of(r@) == lenient_recs(doc@),
{
    match parse_index(doc) {
        Some(ms) => ms,
        None => {
            let ms: Vec<FileMeta> = Vec::new();
            proof {
                assert(recs_of(ms@) =~= Seq::<RecV>::empty());
            }
            ms
        },
    }
}

} // verus!
