//! Facts about the UTF-8 encoding of character sequences that the laws of
//! `text` rest on: how the encoding of a concatenation splits, and how
//! ASCII characters show in the bytes.

use vstd::prelude::*;
use vstd::utf8::*;

verus! {

/// All characters of the text are ASCII (below 0x80).
pub open spec fn is_ascii_text(p: Seq<char>) -> bool {
    forall|i: int| 0 <= i < p.len() ==> (#[trigger] p[i] as u32) < 0x80
}

/// The encoding of a concatenation is the concatenation of the encodings.
pub proof fn lemma_encode_concat(a: Seq<char>, b: Seq<char>)
    ensures
        encode_utf8(a + b) == encode_utf8(a) + encode_utf8(b),
    decreases a.len(),
{
    if a.len() == 0 {
        assert(a + b =~= b);
        assert(encode_utf8(a) + encode_utf8(b) =~= encode_utf8(b));
    } else {
        lemma_encode_concat(a.drop_first(), b);
        assert((a + b).drop_first() =~= a.drop_first() + b);
        assert((a + b)[0] == a[0]);
        assert(encode_utf8(a + b) =~= encode_scalar(a[0] as u32) + encode_utf8(a.drop_first() + b));
        assert(encode_utf8(a) + encode_utf8(b) =~= encode_scalar(a[0] as u32) + (encode_utf8(
            a.drop_first(),
        ) + encode_utf8(b)));
    }
}

proof fn lemma_width_1_byte(v: u32)
    by (bit_vector)
    requires
        has_width_1_encoding(v),
    ensures
        leading_byte_width_1(v) == v as u8,
        (v as u8) < 0x80u8,
        (v as u8) as u32 == v,
{
}

proof fn lemma_width_2_bytes(v: u32)
    by (bit_vector)
    requires
        has_width_2_encoding(v),
    ensures
        leading_byte_width_2(v) >= 0xc0u8,
        leading_byte_width_2(v) <= 0xdfu8,
        last_continuation_byte(v) >= 0x80u8,
        last_continuation_byte(v) <= 0xbfu8,
{
}

proof fn lemma_width_3_bytes(v: u32)
    by (bit_vector)
    requires
        has_width_3_encoding(v),
    ensures
        leading_byte_width_3(v) >= 0xe0u8,
        leading_byte_width_3(v) <= 0xefu8,
        second_last_continuation_byte(v) >= 0x80u8,
        second_last_continuation_byte(v) <= 0xbfu8,
        last_continuation_byte(v) >= 0x80u8,
        last_continuation_byte(v) <= 0xbfu8,
{
}

proof fn lemma_width_4_bytes(v: u32)
    by (bit_vector)
    requires
        has_width_4_encoding(v),
    ensures
        leading_byte_width_4(v) >= 0xf0u8,
        third_last_continuation_byte(v) >= 0x80u8,
        third_last_continuation_byte(v) <= 0xbfu8,
        second_last_continuation_byte(v) >= 0x80u8,
        second_last_continuation_byte(v) <= 0xbfu8,
        last_continuation_byte(v) >= 0x80u8,
        last_continuation_byte(v) <= 0xbfu8,
{
}

proof fn lemma_bom_bytes(v: u32)
    by (bit_vector)
    requires
        has_width_3_encoding(v),
        leading_byte_width_3(v) == 0xefu8,
        second_last_continuation_byte(v) == 0xbbu8,
        last_continuation_byte(v) == 0xbfu8,
    ensures
        v == 0xfeffu32,
{
}

proof fn lemma_bom_encoding(v: u32)
    by (bit_vector)
    requires
        v == 0xfeffu32,
    ensures
        has_width_3_encoding(v),
        !has_width_1_encoding(v),
        !has_width_2_encoding(v),
        leading_byte_width_3(v) == 0xefu8,
        second_last_continuation_byte(v) == 0xbbu8,
        last_continuation_byte(v) == 0xbfu8,
{
}

/// The encoding of a character: its bytes, and which of them are below 0x80.
proof fn lemma_scalar_bytes(c: char)
    ensures
        ({
            let e = encode_scalar(c as u32);
            &&& 1 <= e.len() <= 4
            &&& (c as u32) < 0x80 ==> e == seq![(c as u32) as u8] && e[0] < 0x80
                && (e[0] as u32) == c as u32
            &&& (c as u32) >= 0x80 ==> forall|i: int| 0 <= i < e.len() ==> #[trigger] e[i] >= 0x80
        }),
{
    char_is_scalar(c);
    let v = c as u32;
    if has_width_1_encoding(v) {
        lemma_width_1_byte(v);
    } else if has_width_2_encoding(v) {
        lemma_width_2_bytes(v);
    } else if has_width_3_encoding(v) {
        lemma_width_3_bytes(v);
    } else {
        lemma_width_4_bytes(v);
    }
}

/// When the encoding of a text begins with a byte below 0x80, the text begins
/// with the character of that value, and the rest of the bytes encode the
/// rest of the text.
pub proof fn lemma_first_ascii_byte(l: Seq<char>)
    requires
        encode_utf8(l).len() > 0,
        encode_utf8(l)[0] < 0x80,
    ensures
        l.len() > 0,
        l[0] as u32 == encode_utf8(l)[0] as u32,
        encode_utf8(l.drop_first()) == encode_utf8(l).drop_first(),
{
    assert(l.len() > 0);
    lemma_scalar_bytes(l[0]);
    let e = encode_scalar(l[0] as u32);
    assert(encode_utf8(l) == e + encode_utf8(l.drop_first()));
    assert(encode_utf8(l)[0] == e[0]);
    assert((l[0] as u32) < 0x80);
    assert(encode_utf8(l).drop_first() =~= encode_utf8(l.drop_first()));
}

/// An ASCII text is encoded byte for byte.
pub proof fn lemma_encode_ascii(p: Seq<char>)
    requires
        is_ascii_text(p),
    ensures
        encode_utf8(p).len() == p.len(),
        forall|i: int|
            0 <= i < p.len() ==> (#[trigger] encode_utf8(p)[i]) as u32 == p[i] as u32
                && encode_utf8(p)[i] < 0x80,
    decreases p.len(),
{
    if p.len() > 0 {
        let rest = p.drop_first();
        assert forall|i: int| 0 <= i < rest.len() implies (#[trigger] rest[i] as u32) < 0x80 by {
            assert(rest[i] == p[i + 1]);
        }
        lemma_encode_ascii(rest);
        assert((p[0] as u32) < 0x80);
        lemma_scalar_bytes(p[0]);
        let e = encode_utf8(p);
        assert(e == encode_scalar(p[0] as u32) + encode_utf8(rest));
        assert forall|i: int| 0 <= i < p.len() implies (#[trigger] e[i]) as u32 == p[i] as u32
            && e[i] < 0x80 by {
            if i > 0 {
                assert(e[i] == encode_utf8(rest)[i - 1]);
                assert(rest[i - 1] == p[i]);
            }
        }
    }
}

/// For an ASCII pattern, a prefix of the bytes is a prefix of the characters.
pub proof fn lemma_ascii_prefix(p: Seq<char>, l: Seq<char>)
    requires
        is_ascii_text(p),
    ensures
        encode_utf8(p).is_prefix_of(encode_utf8(l)) <==> p.is_prefix_of(l),
    decreases p.len(),
{
    if p.is_prefix_of(l) {
        assert(l =~= p + l.skip(p.len() as int));
        lemma_encode_concat(p, l.skip(p.len() as int));
        assert(encode_utf8(p) =~= encode_utf8(l).subrange(0, encode_utf8(p).len() as int));
    }
    if encode_utf8(p).is_prefix_of(encode_utf8(l)) && p.len() > 0 {
        lemma_encode_ascii(p);
        let ep = encode_utf8(p);
        let el = encode_utf8(l);
        assert(el[0] == ep[0]);
        lemma_first_ascii_byte(l);
        lemma_first_ascii_byte(p);
        assert(l[0] as u32 == p[0] as u32);
        assert(l[0] == p[0]) by {
            char_u32_cast(l[0], l[0] as u32);
            char_u32_cast(p[0], p[0] as u32);
        }
        let pr = p.drop_first();
        assert forall|i: int| 0 <= i < pr.len() implies (#[trigger] pr[i] as u32) < 0x80 by {
            assert(pr[i] == p[i + 1]);
        }
        assert(encode_utf8(pr).is_prefix_of(encode_utf8(l.drop_first())));
        lemma_ascii_prefix(pr, l.drop_first());
        assert(p =~= l.subrange(0, p.len() as int)) by {
            assert forall|i: int| 0 <= i < p.len() implies p[i] == l.subrange(0, p.len() as int)[i] by {
                if i > 0 {
                    assert(pr[i - 1] == l.drop_first()[i - 1]);
                }
            }
        }
    }
}

/// When the bytes of a text are a prefix of the bytes of an ASCII text, the
/// text is a prefix of that text.
pub proof fn lemma_prefix_of_ascii(m: Seq<char>, q: Seq<char>)
    requires
        is_ascii_text(q),
        encode_utf8(m).is_prefix_of(encode_utf8(q)),
    ensures
        m.is_prefix_of(q),
    decreases m.len(),
{
    lemma_encode_ascii(q);
    if m.len() > 0 {
        lemma_scalar_bytes(m[0]);
        assert(encode_utf8(m) == encode_scalar(m[0] as u32) + encode_utf8(m.drop_first()));
        let em = encode_utf8(m);
        let eq = encode_utf8(q);
        assert(em.len() > 0);
        assert(em[0] == eq[0]);
        lemma_first_ascii_byte(m);
        lemma_first_ascii_byte(q);
        assert(m[0] == q[0]) by {
            char_u32_cast(m[0], m[0] as u32);
            char_u32_cast(q[0], q[0] as u32);
        }
        let qr = q.drop_first();
        assert forall|i: int| 0 <= i < qr.len() implies (#[trigger] qr[i] as u32) < 0x80 by {
            assert(qr[i] == q[i + 1]);
        }
        assert(encode_utf8(m.drop_first()).is_prefix_of(encode_utf8(qr)));
        lemma_prefix_of_ascii(m.drop_first(), qr);
        assert(m =~= q.subrange(0, m.len() as int)) by {
            assert forall|i: int| 0 <= i < m.len() implies m[i] == q.subrange(0, m.len() as int)[i] by {
                if i > 0 {
                    assert(m.drop_first()[i - 1] == qr[i - 1]);
                }
            }
        }
    }
}

/// For a non-empty ASCII pattern, a suffix of the bytes is a suffix of the
/// characters.
pub proof fn lemma_ascii_suffix(p: Seq<char>, l: Seq<char>)
    requires
        is_ascii_text(p),
        p.len() > 0,
    ensures
        encode_utf8(p).is_suffix_of(encode_utf8(l)) <==> p.is_suffix_of(l),
{
    if p.is_suffix_of(l) {
        let x = l.subrange(0, l.len() - p.len());
        assert(l =~= x + p);
        lemma_encode_concat(x, p);
        assert(encode_utf8(p) =~= encode_utf8(l).subrange(
            encode_utf8(l).len() - encode_utf8(p).len(),
            encode_utf8(l).len() as int,
        ));
    }
    if encode_utf8(p).is_suffix_of(encode_utf8(l)) {
        lemma_encode_ascii(p);
        let b = encode_utf8(l);
        let ep = encode_utf8(p);
        let k = b.len() - ep.len();
        encode_utf8_valid_utf8(l);
        encode_utf8_decode_utf8(l);
        encode_utf8_decode_utf8(p);
        assert(b[k] == ep[0]);
        assert(!is_continuation_byte(b[k]));
        is_char_boundary_iff_not_is_continuation_byte(b, k);
        decode_utf8_split(b, k);
        assert(b.subrange(k, b.len() as int) =~= ep);
        let x = decode_utf8(b.subrange(0, k));
        assert(l =~= x + p);
        assert(p =~= l.subrange(l.len() - p.len(), l.len() as int));
    }
}

/// The byte order mark U+FEFF is encoded as EF BB BF.
pub proof fn lemma_bom(c: char)
    requires
        c as u32 == 0xfeff,
    ensures
        encode_scalar(c as u32) == seq![0xefu8, 0xbbu8, 0xbfu8],
{
    lemma_bom_encoding(c as u32);
    assert(encode_scalar(c as u32) =~= seq![0xefu8, 0xbbu8, 0xbfu8]);
}

/// A text whose bytes begin with EF BB BF begins with U+FEFF, and the rest of
/// its bytes encode the rest of it.
pub proof fn lemma_first_bom(l: Seq<char>)
    requires
        encode_utf8(l).len() > 0,
        encode_utf8(l)[0] == 0xef,
        encode_utf8(l).len() >= 3 ==> encode_utf8(l)[1] == 0xbb && encode_utf8(l)[2] == 0xbf,
    ensures
        l.len() > 0,
        encode_utf8(l).len() >= 3,
        l[0] as u32 == 0xfeff,
        encode_utf8(l.drop_first()) == encode_utf8(l).skip(3),
{
    assert(l.len() > 0);
    char_is_scalar(l[0]);
    let v = l[0] as u32;
    let e = encode_scalar(v);
    assert(encode_utf8(l) == e + encode_utf8(l.drop_first()));
    assert(encode_utf8(l)[0] == e[0]);
    if has_width_1_encoding(v) {
        lemma_width_1_byte(v);
    } else if has_width_2_encoding(v) {
        lemma_width_2_bytes(v);
    } else if has_width_3_encoding(v) {
        assert(e.len() == 3);
        assert(encode_utf8(l)[1] == e[1] && encode_utf8(l)[2] == e[2]);
        lemma_bom_bytes(v);
        assert(encode_utf8(l).skip(3) =~= encode_utf8(l.drop_first()));
    } else {
        lemma_width_4_bytes(v);
    }
}

} // verus!
