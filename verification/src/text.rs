//! Byte- and character-level predicates on received lines, and the text
//! transformations used to assemble multi-line messages.

use vstd::prelude::*;
use vstd::utf8::encode_utf8;
use vstd::string::StringExecFns;
use crate::encoding::{
    is_ascii_text, lemma_ascii_prefix, lemma_ascii_suffix, lemma_bom, lemma_encode_ascii,
    lemma_encode_concat, lemma_first_bom, lemma_prefix_of_ascii,
};

verus! {

/// The bytes the server sends before its first line: a UTF-8 byte order mark
/// followed by the terminal escape that resets formatting (`ESC [ 0 m`).
pub open spec fn header_bytes() -> Seq<u8> {
    seq![0xefu8, 0xbbu8, 0xbfu8, 0x1bu8, 0x5bu8, 0x30u8, 0x6du8]
}

/// The UTF-8 bytes of a line.
pub open spec fn line_bytes(line: Seq<char>) -> Seq<u8> {
    encode_utf8(line)
}

/// A line is taken for the header when its bytes and the header's bytes agree
/// on every position that both of them have (so the empty line, any prefix of
/// the header, and any line that begins with the header all count).
pub open spec fn is_header_line(line: Seq<char>) -> bool {
    let b = line_bytes(line);
    forall|i: int| 0 <= i < b.len() && i < header_bytes().len() ==> b[i] == header_bytes()[i]
}

/// Decides `is_header_line` for a line.
pub fn is_header(line: &str) -> (r: bool)
    ensures
        r == is_header_line(line@),
{
    let b = line.as_bytes();
    let header: [u8; 7] = [0xef, 0xbb, 0xbf, 0x1b, 0x5b, 0x30, 0x6d];
    assert(header@ =~= header_bytes());
    let mut i: usize = 0;
    while i < b.len() && i < 7
        invariant
            b@ == line_bytes(line@),
            header@ == header_bytes(),
            i <= 7,
            forall|j: int| 0 <= j < i ==> b@[j] == header_bytes()[j],
        decreases 7 - i,
    {
        if b[i] != header[i] {
            return false;
        }
        i = i + 1;
    }
    true
}


/// `>>`: a shout begins with it (lines of the speech begin with a space).
pub open spec fn plain_opening() -> Seq<u8> {
    seq![0x3eu8, 0x3eu8]
}

/// `ESC[0m ESC[1m ESC[31m >>`: the opening of a shout printed in red.
pub open spec fn red_opening() -> Seq<u8> {
    seq![
        0x1bu8, 0x5bu8, 0x30u8, 0x6du8, 0x1bu8, 0x5bu8, 0x31u8, 0x6du8,
        0x1bu8, 0x5bu8, 0x33u8, 0x31u8, 0x6du8, 0x3eu8, 0x3eu8,
    ]
}

/// `ESC[0m ESC[1m ESC[32m >>`: the opening of a shout printed in green (one's own).
pub open spec fn green_opening() -> Seq<u8> {
    seq![
        0x1bu8, 0x5bu8, 0x30u8, 0x6du8, 0x1bu8, 0x5bu8, 0x31u8, 0x6du8,
        0x1bu8, 0x5bu8, 0x33u8, 0x32u8, 0x6du8, 0x3eu8, 0x3eu8,
    ]
}

/// `<<` followed by CR LF: the end of a shout.
pub open spec fn closing() -> Seq<u8> {
    seq![0x3cu8, 0x3cu8, 0x0du8, 0x0au8]
}

/// The line begins with one of the three openings of a shout.
pub open spec fn opens_shout(line: Seq<char>) -> bool {
    let b = line_bytes(line);
    ||| plain_opening().is_prefix_of(b)
    ||| red_opening().is_prefix_of(b)
    ||| green_opening().is_prefix_of(b)
}

/// The line ends with `<<` and CR LF.
pub open spec fn closes_shout(line: Seq<char>) -> bool {
    closing().is_suffix_of(line_bytes(line))
}

/// Whether `hay` begins with `pat`.
fn bytes_start_with(hay: &[u8], pat: &[u8]) -> (r: bool)
    ensures
        r == pat@.is_prefix_of(hay@),
{
    if pat.len() > hay.len() {
        return false;
    }
    let mut i: usize = 0;
    while i < pat.len()
        invariant
            pat.len() <= hay.len(),
            i <= pat.len(),
            forall|j: int| 0 <= j < i ==> hay@[j] == pat@[j],
        decreases pat.len() - i,
    {
        if hay[i] != pat[i] {
            return false;
        }
        i = i + 1;
    }
    assert(pat@ =~= hay@.subrange(0, pat@.len() as int));
    true
}

/// Whether `hay` ends with `pat`.
fn bytes_end_with(hay: &[u8], pat: &[u8]) -> (r: bool)
    ensures
        r == pat@.is_suffix_of(hay@),
{
    if pat.len() > hay.len() {
        return false;
    }
    let off: usize = hay.len() - pat.len();
    let mut i: usize = 0;
    while i < pat.len()
        invariant
            pat.len() <= hay.len(),
            off == hay.len() - pat.len(),
            i <= pat.len(),
            forall|j: int| 0 <= j < i ==> hay@[off + j] == pat@[j],
        decreases pat.len() - i,
    {
        if hay[off + i] != pat[i] {
            return false;
        }
        i = i + 1;
    }
    assert(pat@ =~= hay@.subrange(off as int, hay@.len() as int));
    true
}

/// Decides `opens_shout` for a line.
pub fn opens_shout_line(line: &str) -> (r: bool)
    ensures
        r == opens_shout(line@),
{
    let b = line.as_bytes();
    let plain: [u8; 2] = [0x3e, 0x3e];
    let red: [u8; 15] = [
        0x1b, 0x5b, 0x30, 0x6d, 0x1b, 0x5b, 0x31, 0x6d, 0x1b, 0x5b, 0x33, 0x31, 0x6d, 0x3e, 0x3e,
    ];
    let green: [u8; 15] = [
        0x1b, 0x5b, 0x30, 0x6d, 0x1b, 0x5b, 0x31, 0x6d, 0x1b, 0x5b, 0x33, 0x32, 0x6d, 0x3e, 0x3e,
    ];
    assert(plain@ =~= plain_opening());
    assert(red@ =~= red_opening());
    assert(green@ =~= green_opening());
    bytes_start_with(b, &plain) || bytes_start_with(b, &red) || bytes_start_with(b, &green)
}

/// Decides `closes_shout` for a line.
pub fn closes_shout_line(line: &str) -> (r: bool)
    ensures
        r == closes_shout(line@),
{
    let b = line.as_bytes();
    let close: [u8; 4] = [0x3c, 0x3c, 0x0d, 0x0a];
    assert(close@ =~= closing());
    bytes_end_with(b, &close)
}


/// The text with every CR LF pair removed, pairs taken from the left without
/// overlap (what replacing `"\r\n"` by `""` gives).
pub open spec fn strip_crlf(s: Seq<char>) -> Seq<char>
    decreases s.len(),
{
    if s.len() < 2 {
        s
    } else if s[0] == '\r' && s[1] == '\n' {
        strip_crlf(s.skip(2))
    } else {
        seq![s[0]] + strip_crlf(s.skip(1))
    }
}

/// `String::push` from std: appends one character.
#[verifier::external_body]
fn push_char(s: &mut String, c: char)
    ensures
        final(s)@ == old(s)@.push(c),
{
    s.push(c);
}

/// One step of `strip_crlf` when the text starts with a character that does
/// not begin a CR LF pair.
proof fn lemma_strip_crlf_keep(s: Seq<char>)
    requires
        s.len() >= 1,
        !(s.len() >= 2 && s[0] == '\r' && s[1] == '\n'),
    ensures
        strip_crlf(s) == seq![s[0]] + strip_crlf(s.skip(1)),
{
    if s.len() == 1 {
        assert(s.skip(1) =~= Seq::<char>::empty());
        assert(seq![s[0]] + Seq::<char>::empty() =~= s);
    }
}

/// Removes every CR LF pair from `s`.
pub fn remove_crlf(s: &str) -> (r: String)
    ensures
        r@ == strip_crlf(s@),
{
    let mut out = String::new();
    // a CR has been read and is held back until the next character is known
    let mut held_cr = false;
    let ghost total = s@;
    assert(total.skip(0) =~= total);
    assert(out@ + strip_crlf(total) =~= strip_crlf(total));
    for c in it: s.chars()
        invariant
            it.seq() == total,
            strip_crlf(total) == out@ + strip_crlf(
                if held_cr { seq!['\r'] + total.skip(it.index()) } else { total.skip(it.index()) }
            ),
    {
        let ghost i = it.index();
        let ghost rest = total.skip(i);
        let ghost old_out = out@;
        assert(0 <= i < total.len());
        assert(c == total[i]);
        assert(rest[0] == c);
        assert(rest.skip(1) =~= total.skip(i + 1));
        if held_cr {
            let ghost t = seq!['\r'] + rest;
            assert(t[0] == '\r' && t[1] == c);
            assert(t.skip(1) =~= rest);
            if c == '\n' {
                assert(t.skip(2) =~= total.skip(i + 1));
                assert(strip_crlf(t) == strip_crlf(total.skip(i + 1)));
                held_cr = false;
            } else {
                proof { lemma_strip_crlf_keep(t); }
                push_char(&mut out, '\r');
                assert(old_out + strip_crlf(t) =~= out@ + strip_crlf(rest));
                if c == '\r' {
                    held_cr = true;
                    assert(seq!['\r'] + total.skip(i + 1) =~= rest);
                } else {
                    let ghost mid = out@;
                    proof { lemma_strip_crlf_keep(rest); }
                    push_char(&mut out, c);
                    assert(mid + strip_crlf(rest) =~= out@ + strip_crlf(total.skip(i + 1)));
                    held_cr = false;
                }
            }
        } else {
            if c == '\r' {
                held_cr = true;
                assert(seq!['\r'] + total.skip(i + 1) =~= rest);
            } else {
                proof { lemma_strip_crlf_keep(rest); }
                push_char(&mut out, c);
                assert(old_out + strip_crlf(rest) =~= out@ + strip_crlf(total.skip(i + 1)));
            }
        }
    }
    assert(total.skip(total.len() as int) =~= Seq::<char>::empty());
    if held_cr {
        assert(seq!['\r'] + Seq::<char>::empty() =~= seq!['\r']);
        assert(strip_crlf(seq!['\r']) == seq!['\r']);
        let ghost before = out@;
        push_char(&mut out, '\r');
        assert(out@ =~= before + seq!['\r']);
    } else {
        assert(strip_crlf(Seq::<char>::empty()) == Seq::<char>::empty());
        assert(out@ + Seq::<char>::empty() =~= out@);
    }
    out
}

/// Concatenates the lines in order (what joining them with `""` gives).
pub fn concat_lines(lines: &Vec<String>) -> (r: String)
    ensures
        r@ == lines@.map_values(|l: String| l@).flatten(),
{
    let mut out = String::new();
    let ghost views = lines@.map_values(|l: String| l@);
    let mut i: usize = 0;
    while i < lines.len()
        invariant
            i <= lines.len(),
            views == lines@.map_values(|l: String| l@),
            out@ == views.take(i as int).flatten(),
        decreases lines.len() - i,
    {
        proof {
            assert(views.take(i + 1) =~= views.take(i as int).push(views[i as int]));
            views.take(i as int).lemma_flatten_push(views[i as int]);
        }
        out.append(lines[i].as_str());
        i = i + 1;
    }
    assert(views.take(lines.len() as int) =~= views);
    out
}

/* The laws of the line predicates and of `strip_crlf`, stated over the
   characters of a line, without the bytes. */

/// The header as characters: U+FEFF, then `ESC [ 0 m`.
pub open spec fn header_text() -> Seq<char> {
    seq!['\u{feff}', '\x1b', '[', '0', 'm']
}

/// `>>` as characters.
pub open spec fn plain_opening_text() -> Seq<char> {
    seq!['>', '>']
}

/// The red opening as characters.
pub open spec fn red_opening_text() -> Seq<char> {
    seq!['\x1b', '[', '0', 'm', '\x1b', '[', '1', 'm', '\x1b', '[', '3', '1', 'm', '>', '>']
}

/// The green opening as characters.
pub open spec fn green_opening_text() -> Seq<char> {
    seq!['\x1b', '[', '0', 'm', '\x1b', '[', '1', 'm', '\x1b', '[', '3', '2', 'm', '>', '>']
}

/// `<<` CR LF as characters.
pub open spec fn closing_text() -> Seq<char> {
    seq!['<', '<', '\r', '\n']
}

/// The bytes of an ASCII pattern, given character by character, are the
/// expected bytes.
proof fn lemma_pattern_bytes(p: Seq<char>, bytes: Seq<u8>)
    requires
        p.len() == bytes.len(),
        forall|i: int| 0 <= i < p.len() ==> (#[trigger] p[i] as u32) == bytes[i] as u32,
        forall|i: int| 0 <= i < p.len() ==> (#[trigger] bytes[i]) < 0x80,
    ensures
        is_ascii_text(p),
        line_bytes(p) == bytes,
{
    assert forall|i: int| 0 <= i < p.len() implies (#[trigger] p[i] as u32) < 0x80 by {
        assert(bytes[i] < 0x80);
    }
    lemma_encode_ascii(p);
    assert forall|i: int| 0 <= i < p.len() implies #[trigger] line_bytes(p)[i] == bytes[i] by {
        assert(line_bytes(p)[i] as u32 == bytes[i] as u32);
    }
    assert(line_bytes(p) =~= bytes);
}

proof fn lemma_opening_bytes()
    ensures
        is_ascii_text(plain_opening_text()),
        is_ascii_text(red_opening_text()),
        is_ascii_text(green_opening_text()),
        line_bytes(plain_opening_text()) == plain_opening(),
        line_bytes(red_opening_text()) == red_opening(),
        line_bytes(green_opening_text()) == green_opening(),
{
    lemma_pattern_bytes(plain_opening_text(), plain_opening());
    lemma_pattern_bytes(red_opening_text(), red_opening());
    lemma_pattern_bytes(green_opening_text(), green_opening());
}

/// A line opens a shout exactly when its characters begin with `>>`, with the
/// red opening `ESC[0m ESC[1m ESC[31m >>`, or with the green opening
/// `ESC[0m ESC[1m ESC[32m >>`; nothing else opens one.
#[verifier::spinoff_prover]
pub proof fn law_opening_is_one_of_three(line: Seq<char>)
    ensures
        opens_shout(line) <==> (plain_opening_text().is_prefix_of(line)
            || red_opening_text().is_prefix_of(line) || green_opening_text().is_prefix_of(line)),
{
    lemma_opening_bytes();
    lemma_ascii_prefix(plain_opening_text(), line);
    lemma_ascii_prefix(red_opening_text(), line);
    lemma_ascii_prefix(green_opening_text(), line);
}

/// A line closes a shout exactly when its characters end with `<<` CR LF,
/// whatever characters come before.
#[verifier::spinoff_prover]
pub proof fn law_closing_is_suffix(line: Seq<char>)
    ensures
        closes_shout(line) <==> closing_text().is_suffix_of(line),
{
    lemma_pattern_bytes(closing_text(), closing());
    lemma_ascii_suffix(closing_text(), line);
}

/// In particular, any text followed by `<<` CR LF closes a shout.
pub proof fn law_text_then_closing_closes(p: Seq<char>)
    ensures
        closes_shout(p + closing_text()),
{
    law_closing_is_suffix(p + closing_text());
    assert(closing_text() =~= (p + closing_text()).subrange(
        p.len() as int,
        p.len() + 4int,
    ));
}

proof fn lemma_header_bytes()
    ensures
        line_bytes(header_text()) == header_bytes(),
        is_ascii_text(header_text().drop_first()),
        line_bytes(header_text().drop_first()) == header_bytes().skip(3),
{
    let h = header_text();
    lemma_pattern_bytes(h.drop_first(), header_bytes().skip(3));
    lemma_bom(h[0]);
    assert(line_bytes(h) == vstd::utf8::encode_scalar(h[0] as u32) + line_bytes(h.drop_first()));
    assert(line_bytes(h) =~= header_bytes());
}

/// From the characters to the bytes: a prefix of the header, or a line that
/// begins with it, agrees with the header bytes.
#[verifier::spinoff_prover]
proof fn lemma_header_text_gives_header(line: Seq<char>)
    requires
        line.is_prefix_of(header_text()) || header_text().is_prefix_of(line),
    ensures
        is_header_line(line),
{
    lemma_header_bytes();
    let h = header_text();
    let hb = header_bytes();
    let b = line_bytes(line);
    if header_text().is_prefix_of(line) {
        assert(line =~= h + line.skip(5));
        lemma_encode_concat(h, line.skip(5));
        assert(b == hb + line_bytes(line.skip(5)));
        assert forall|i: int| 0 <= i < b.len() && i < hb.len() implies b[i] == hb[i] by {
            assert((hb + line_bytes(line.skip(5)))[i] == hb[i]);
        }
    } else {
        let tail = h.skip(line.len() as int);
        assert(h =~= line + tail);
        lemma_encode_concat(line, tail);
        assert(hb == b + line_bytes(tail));
        assert forall|i: int| 0 <= i < b.len() && i < hb.len() implies b[i] == hb[i] by {
            assert((b + line_bytes(tail))[i] == b[i]);
        }
    }
}

/// A line of at least seven bytes that agrees with the header bytes begins
/// with the header characters.
#[verifier::spinoff_prover]
proof fn lemma_long_header_line(line: Seq<char>)
    requires
        is_header_line(line),
        line_bytes(line).len() >= 7,
    ensures
        header_text().is_prefix_of(line),
{
    lemma_header_bytes();
    let h = header_text();
    let b = line_bytes(line);
    let hb = header_bytes();
    assert(b[0] == hb[0] && b[1] == hb[1] && b[2] == hb[2]);
    lemma_first_bom(line);
    let rest = line.drop_first();
    let hr = h.drop_first();
    assert(line[0] == h[0]) by {
        vstd::utf8::char_u32_cast(line[0], line[0] as u32);
        vstd::utf8::char_u32_cast(h[0], h[0] as u32);
    }
    assert(line_bytes(hr).is_prefix_of(line_bytes(rest))) by {
        assert forall|i: int| 0 <= i < 4 implies #[trigger] line_bytes(rest)[i] == line_bytes(hr)[i] by {
            assert(line_bytes(rest)[i] == b[i + 3]);
            assert(b[i + 3] == hb[i + 3]);
        }
        assert(line_bytes(hr) =~= line_bytes(rest).subrange(0, 4));
    }
    lemma_ascii_prefix(hr, rest);
    assert(h =~= line.subrange(0, 5)) by {
        assert forall|i: int| 0 <= i < 5 implies h[i] == line.subrange(0, 5)[i] by {
            if i > 0 {
                assert(hr[i - 1] == rest[i - 1]);
            }
        }
    }
}

/// A non-empty line of fewer than seven bytes that agrees with the header
/// bytes is a prefix of the header characters.
#[verifier::spinoff_prover]
proof fn lemma_short_header_line(line: Seq<char>)
    requires
        is_header_line(line),
        0 < line_bytes(line).len() < 7,
    ensures
        line.is_prefix_of(header_text()),
{
    lemma_header_bytes();
    let h = header_text();
    let b = line_bytes(line);
    let hb = header_bytes();
    assert(b[0] == hb[0]);
    if b.len() >= 3 {
        assert(b[1] == hb[1] && b[2] == hb[2]);
    }
    lemma_first_bom(line);
    let rest = line.drop_first();
    let hr = h.drop_first();
    assert(line[0] == h[0]) by {
        vstd::utf8::char_u32_cast(line[0], line[0] as u32);
        vstd::utf8::char_u32_cast(h[0], h[0] as u32);
    }
    assert(line_bytes(rest).is_prefix_of(line_bytes(hr))) by {
        assert forall|i: int| 0 <= i < line_bytes(rest).len() implies #[trigger] line_bytes(rest)[i]
            == line_bytes(hr)[i] by {
            assert(line_bytes(rest)[i] == b[i + 3]);
            assert(b[i + 3] == hb[i + 3]);
        }
        assert(line_bytes(rest) =~= line_bytes(hr).subrange(0, line_bytes(rest).len() as int));
    }
    lemma_prefix_of_ascii(rest, hr);
    assert(line =~= h.subrange(0, line.len() as int)) by {
        assert forall|i: int| 0 <= i < line.len() implies line[i] == h.subrange(0, line.len() as int)[i] by {
            if i > 0 {
                assert(rest[i - 1] == hr[i - 1]);
            }
        }
    }
}

/// A line is taken for the header exactly when its characters are a prefix of
/// U+FEFF `ESC [ 0 m` (the empty line included) or begin with it; so a
/// non-empty line that does not begin with U+FEFF is never the header.
#[verifier::spinoff_prover]
pub proof fn law_header_is_prefix_either_way(line: Seq<char>)
    ensures
        is_header_line(line) <==> (line.is_prefix_of(header_text())
            || header_text().is_prefix_of(line)),
{
    if line.is_prefix_of(header_text()) || header_text().is_prefix_of(line) {
        lemma_header_text_gives_header(line);
    }
    if is_header_line(line) {
        let n = line_bytes(line).len();
        if n == 0 {
            if line.len() > 0 {
                assert(line_bytes(line) == vstd::utf8::encode_scalar(line[0] as u32) + line_bytes(
                    line.drop_first(),
                ));
                vstd::utf8::char_is_scalar(line[0]);
            }
            assert(line.len() == 0);
            assert(line =~= header_text().subrange(0, 0));
        } else if n >= 7 {
            lemma_long_header_line(line);
        } else {
            lemma_short_header_line(line);
        }
    }
}

/// Removing CR LF pairs splits at a removed pair: for all texts `s` and `t`,
/// the result for `s`, CR LF, `t` is the result for `s` followed by the result
/// for `t` (a pair can never straddle the one between them).
#[verifier::spinoff_prover]
pub proof fn law_strip_crlf_splits_at_pair(s: Seq<char>, t: Seq<char>)
    ensures
        strip_crlf(s + seq!['\r', '\n'] + t) == strip_crlf(s) + strip_crlf(t),
    decreases s.len(),
{
    let pair = seq!['\r', '\n'];
    let u = s + pair + t;
    if s.len() == 0 {
        assert(u.skip(2) =~= t);
        assert(u[0] == '\r' && u[1] == '\n');
        assert(strip_crlf(s) + strip_crlf(t) =~= strip_crlf(t));
    } else if s.len() >= 2 && s[0] == '\r' && s[1] == '\n' {
        law_strip_crlf_splits_at_pair(s.skip(2), t);
        assert(u.skip(2) =~= s.skip(2) + pair + t);
    } else {
        law_strip_crlf_splits_at_pair(s.skip(1), t);
        assert(u.skip(1) =~= s.skip(1) + pair + t);
        assert(u[0] == s[0]);
        if s.len() == 1 {
            assert(u[1] == '\r');
            assert(s.skip(1) =~= Seq::<char>::empty());
            assert(strip_crlf(s.skip(1)) == Seq::<char>::empty());
            assert(strip_crlf(s) =~= seq![s[0]] + strip_crlf(s.skip(1)));
        } else {
            assert(u[1] == s[1]);
        }
        assert(strip_crlf(u) == seq![s[0]] + strip_crlf(u.skip(1)));
        assert(strip_crlf(s) == seq![s[0]] + strip_crlf(s.skip(1)));
        assert(seq![s[0]] + (strip_crlf(s.skip(1)) + strip_crlf(t)) =~= (seq![s[0]] + strip_crlf(
            s.skip(1),
        )) + strip_crlf(t));
    }
}

/// A text with no CR directly followed by LF comes out unchanged.
pub proof fn law_strip_crlf_keeps_text_without_pairs(s: Seq<char>)
    requires
        forall|i: int| 0 <= i < s.len() - 1 ==> !(#[trigger] s[i] == '\r' && s[i + 1] == '\n'),
    ensures
        strip_crlf(s) == s,
    decreases s.len(),
{
    if s.len() >= 2 {
        let r = s.skip(1);
        assert forall|i: int| 0 <= i < r.len() - 1 implies !(#[trigger] r[i] == '\r' && r[i + 1] == '\n') by {
            assert(r[i] == s[i + 1] && r[i + 1] == s[i + 2]);
        }
        law_strip_crlf_keeps_text_without_pairs(r);
        assert(!(s[0] == '\r' && s[1] == '\n'));
        assert(seq![s[0]] + r =~= s);
    }
}

} // verus!
