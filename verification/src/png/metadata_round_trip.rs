//! What reading a metadata chunk gives back of what writing it wrote.
use vstd::prelude::*;
use vstd::utf8::{decode_utf8, encode_utf8, valid_utf8};
use crate::octets;
use super::encode_doc::{
    chrm_bytes, iccp_bytes, itxt_bytes, keyword_value, phys_bytes, srgb_byte, text_bytes, time_bytes, ztxt_bytes,
};
use super::metadata::{
    chrm_value, first_zero, gama_value, iccp_value, itxt_value, keyword_split, null_split, phys_value, srgb_value,
    text_value, time_value, utf8_value, ztxt_value, IccModel, InternationalTextModel, TextModel,
};
use super::types::{PhysicalPixelDimensions, PngChromaticities, PngParseError, PngTimestamp, SrgbRenderingIntent};
use super::zlib;

verus! {

/// Four bytes that are the encoding of `v` read back as `v`.
proof fn lemma_be_u32_at(s: Seq<u8>, i: int, v: u32)
    requires
        0 <= i,
        i + 4 <= s.len(),
        s.subrange(i, i + 4) == octets::be_bytes_u32(v),
    ensures
        octets::be_u32_at(s, i) == v,
{
    octets::lemma_be_u32_roundtrip(v);
    let b = octets::be_bytes_u32(v);
    assert(s[i] == b[0] && s[i + 1] == b[1] && s[i + 2] == b[2] && s[i + 3] == b[3]) by {
        assert(s.subrange(i, i + 4)[0] == s[i]);
        assert(s.subrange(i, i + 4)[1] == s[i + 1]);
        assert(s.subrange(i, i + 4)[2] == s[i + 2]);
        assert(s.subrange(i, i + 4)[3] == s[i + 3]);
    }
}

/// Reading a gAMA payload gives back the value written.
pub proof fn law_gama_reads_back(gamma: u32)
    ensures
        gama_value(octets::be_bytes_u32(gamma)) == Ok::<u32, PngParseError>(gamma),
{
    octets::lemma_be_u32_roundtrip(gamma);
}

/// Reading a cHRM payload gives back the chromaticities written.
pub proof fn law_chrm_reads_back(c: PngChromaticities)
    ensures
        chrm_value(chrm_bytes(c)) == Ok::<PngChromaticities, PngParseError>(c),
{
    let s = chrm_bytes(c);
    assert(s.subrange(0, 4) =~= octets::be_bytes_u32(c.white_x));
    assert(s.subrange(4, 8) =~= octets::be_bytes_u32(c.white_y));
    assert(s.subrange(8, 12) =~= octets::be_bytes_u32(c.red_x));
    assert(s.subrange(12, 16) =~= octets::be_bytes_u32(c.red_y));
    assert(s.subrange(16, 20) =~= octets::be_bytes_u32(c.green_x));
    assert(s.subrange(20, 24) =~= octets::be_bytes_u32(c.green_y));
    assert(s.subrange(24, 28) =~= octets::be_bytes_u32(c.blue_x));
    assert(s.subrange(28, 32) =~= octets::be_bytes_u32(c.blue_y));
    lemma_be_u32_at(s, 0, c.white_x);
    lemma_be_u32_at(s, 4, c.white_y);
    lemma_be_u32_at(s, 8, c.red_x);
    lemma_be_u32_at(s, 12, c.red_y);
    lemma_be_u32_at(s, 16, c.green_x);
    lemma_be_u32_at(s, 20, c.green_y);
    lemma_be_u32_at(s, 24, c.blue_x);
    lemma_be_u32_at(s, 28, c.blue_y);
}

/// Reading an sRGB payload gives back the rendering intent written.
pub proof fn law_srgb_reads_back(intent: SrgbRenderingIntent)
    ensures
        srgb_value(seq![srgb_byte(intent)]) == Ok::<SrgbRenderingIntent, PngParseError>(intent),
{
}

/// Reading a pHYs payload gives back the dimensions written.
pub proof fn law_phys_reads_back(p: PhysicalPixelDimensions)
    ensures
        phys_value(phys_bytes(p)) == Ok::<PhysicalPixelDimensions, PngParseError>(p),
{
    let s = phys_bytes(p);
    assert(s.subrange(0, 4) =~= octets::be_bytes_u32(p.pixels_per_unit_x));
    assert(s.subrange(4, 8) =~= octets::be_bytes_u32(p.pixels_per_unit_y));
    lemma_be_u32_at(s, 0, p.pixels_per_unit_x);
    lemma_be_u32_at(s, 4, p.pixels_per_unit_y);
}

/// Reading a tIME payload gives back the timestamp written.
pub proof fn law_time_reads_back(t: PngTimestamp)
    ensures
        time_value(time_bytes(t)) == Ok::<PngTimestamp, PngParseError>(t),
{
    let s = time_bytes(t);
    assert(octets::be_u16_at(s, 0) == t.year);
}

/// A zero byte found where the bytes before it hold none.
proof fn lemma_first_zero_at(p: Seq<u8>, i: int, z: int)
    requires
        0 <= i <= z < p.len(),
        p[z] == 0,
        forall|k: int| i <= k < z ==> p[k] != 0,
    ensures
        first_zero(p, i) == Some(z),
    decreases z - i,
{
    if i < z {
        lemma_first_zero_at(p, i + 1, z);
    }
}

/// Bytes without a zero byte, then a zero byte, split back apart.
proof fn lemma_null_split(a: Seq<u8>, b: Seq<u8>)
    requires
        !a.contains(0u8),
    ensures
        null_split(a.push(0u8) + b) == Some((a, b)),
{
    let p = a.push(0u8) + b;
    assert forall|k: int| 0 <= k < a.len() implies p[k] != 0 by {
        assert(p[k] == a[k]);
        if a[k] == 0 {
            assert(a.contains(0u8));
        }
    }
    lemma_first_zero_at(p, 0, a.len() as int);
    assert(p.subrange(0, a.len() as int) =~= a);
    assert(p.subrange(a.len() + 1int, p.len() as int) =~= b);
}

/// Writing text as UTF-8 and reading it back gives the text.
proof fn lemma_utf8_value(t: Seq<char>)
    ensures
        utf8_value(encode_utf8(t)) == Some(t),
{
    vstd::utf8::encode_utf8_valid_utf8(t);
    vstd::utf8::encode_utf8_decode_utf8(t);
}

/// A keyword written with its zero byte is split back from what follows.
proof fn lemma_keyword_split(kw: Seq<char>, rest: Seq<u8>)
    requires
        keyword_value(kw) is Ok,
    ensures
        keyword_split(keyword_value(kw)->Ok_0 + rest) == Ok::<(Seq<char>, Seq<u8>), PngParseError>((kw, rest)),
{
    let b = encode_utf8(kw);
    assert(b.len() >= 1) by {
        assert(encode_utf8(kw) == vstd::utf8::encode_scalar(kw[0] as u32) + encode_utf8(kw.drop_first()));
    }
    lemma_null_split(b, rest);
    lemma_utf8_value(kw);
}

/// Reading a tEXt payload gives back the text chunk written.
pub proof fn law_text_reads_back(t: TextModel)
    ensures
        text_bytes(t) matches Ok(b) ==> text_value(b) == Ok::<TextModel, PngParseError>(t),
{
    if keyword_value(t.keyword) is Ok {
        lemma_keyword_split(t.keyword, encode_utf8(t.text));
        lemma_utf8_value(t.text);
    }
}

/// Reading a zTXt payload gives back the text chunk written, where
/// inflating what `flate2` wrote for the text gives the text back.
pub proof fn law_ztxt_reads_back(t: TextModel)
    requires
        zlib::zlib_inflated(zlib::zlib_deflated(encode_utf8(t.text))) == Some(encode_utf8(t.text)),
    ensures
        ztxt_bytes(t) matches Ok(b) ==> ztxt_value(b) == Ok::<TextModel, PngParseError>(t),
{
    if keyword_value(t.keyword) is Ok {
        let k = keyword_value(t.keyword)->Ok_0;
        let z = zlib::zlib_deflated(encode_utf8(t.text));
        let rest = seq![0u8] + z;
        assert(k.push(0u8) + z =~= k + rest);
        lemma_keyword_split(t.keyword, rest);
        assert(rest.subrange(1, rest.len() as int) =~= z);
        lemma_utf8_value(t.text);
    }
}

/// Reading an iCCP payload gives back the profile written, where
/// inflating what `flate2` wrote for the profile gives it back.
pub proof fn law_iccp_reads_back(p: IccModel)
    requires
        zlib::zlib_inflated(zlib::zlib_deflated(p.profile)) == Some(p.profile),
    ensures
        iccp_bytes(p) matches Ok(b) ==> iccp_value(b) == Ok::<IccModel, PngParseError>(p),
{
    if keyword_value(p.name) is Ok {
        let k = keyword_value(p.name)->Ok_0;
        let z = zlib::zlib_deflated(p.profile);
        let rest = seq![0u8] + z;
        assert(k.push(0u8) + z =~= k + rest);
        lemma_keyword_split(p.name, rest);
        assert(rest.subrange(1, rest.len() as int) =~= z);
    }
}

/// Reading an iTXt payload gives back the chunk written, where its
/// language tag and translated keyword hold no zero character and, for a
/// compressed chunk, inflating what `flate2` wrote for the text gives it
/// back.
pub proof fn law_itxt_reads_back(t: InternationalTextModel)
    requires
        !encode_utf8(t.language_tag).contains(0u8),
        !encode_utf8(t.translated_keyword).contains(0u8),
        t.compressed ==> zlib::zlib_inflated(zlib::zlib_deflated(encode_utf8(t.text))) == Some(encode_utf8(t.text)),
    ensures
        itxt_bytes(t) matches Ok(b) ==> itxt_value(b) == Ok::<InternationalTextModel, PngParseError>(t),
{
    if keyword_value(t.keyword) is Ok {
        let k = keyword_value(t.keyword)->Ok_0;
        let lang = encode_utf8(t.language_tag);
        let tk = encode_utf8(t.translated_keyword);
        let text = encode_utf8(t.text);
        let body = if t.compressed { zlib::zlib_deflated(text) } else { text };
        let flags = seq![if t.compressed { 1u8 } else { 0u8 }, 0u8];
        let rest = flags + (lang.push(0u8) + (tk.push(0u8) + body));
        assert(k + flags + lang.push(0u8) + tk.push(0u8) + body =~= k + rest);
        lemma_keyword_split(t.keyword, rest);
        assert(rest.subrange(2, rest.len() as int) =~= lang.push(0u8) + (tk.push(0u8) + body));
        lemma_null_split(lang, tk.push(0u8) + body);
        lemma_null_split(tk, body);
        lemma_utf8_value(t.language_tag);
        lemma_utf8_value(t.translated_keyword);
        lemma_utf8_value(t.text);
    }
}

} // verus!
