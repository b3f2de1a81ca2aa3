//! The registry of asset formats and their recognition from content and extension.
use vstd::prelude::*;
use vstd::utf8::{decode_utf8, valid_utf8};

use crate::asset_core::AssetKind;
use crate::isobmff::{classify_file_type, file_type_of};
use crate::text::{
    bytes_prefix, chars_of, first_non_white, has_prefix, is_white, lemma_first_non_white_char,
    lower_char, lower_chars, lower_seq, skip_white, slice_eq, starts_with, subslice, trim_start_seq,
};

verus! {

/// Maximum prefix read while identifying an asset; recognition stays bounded.
pub const MAX_SIGNATURE_BYTES: u64 = 65536;

#[derive(Debug, Clone, Copy, PartialEq, Eq)]
pub struct FormatDescriptor {
    pub id: &'static str,
    pub extensions: &'static [&'static str],
    pub mime: &'static str,
    pub kind: AssetKind,
}

#[derive(Debug, Clone, Copy, PartialEq, Eq, Structural)]
pub enum RecognitionSource {
    Content,
    Extension,
}

#[derive(Debug, Clone, Copy, PartialEq, Eq)]
pub struct FormatRecognition {
    pub descriptor: FormatDescriptor,
    pub source: RecognitionSource,
    pub extension_mismatch: bool,
}

/// The fifteen registered formats, in registry order.
pub open spec fn spec_registry() -> Seq<FormatDescriptor> {
    seq![
        FormatDescriptor { id: "png", extensions: &["png"], mime: "image/png", kind: AssetKind::Image },
        FormatDescriptor { id: "jpeg", extensions: &["jpg", "jpeg"], mime: "image/jpeg", kind: AssetKind::Image },
        FormatDescriptor { id: "gif", extensions: &["gif"], mime: "image/gif", kind: AssetKind::Image },
        FormatDescriptor { id: "webp", extensions: &["webp"], mime: "image/webp", kind: AssetKind::Image },
        FormatDescriptor { id: "svg", extensions: &["svg"], mime: "image/svg+xml", kind: AssetKind::Image },
        FormatDescriptor { id: "avif", extensions: &["avif"], mime: "image/avif", kind: AssetKind::Image },
        FormatDescriptor { id: "heic", extensions: &["heic"], mime: "image/heic", kind: AssetKind::Image },
        FormatDescriptor { id: "heif", extensions: &["heif"], mime: "image/heif", kind: AssetKind::Image },
        FormatDescriptor { id: "mp4", extensions: &["mp4", "m4v"], mime: "video/mp4", kind: AssetKind::Video },
        FormatDescriptor { id: "mov", extensions: &["mov"], mime: "video/quicktime", kind: AssetKind::Video },
        FormatDescriptor { id: "webm", extensions: &["webm"], mime: "video/webm", kind: AssetKind::Video },
        FormatDescriptor { id: "mp3", extensions: &["mp3"], mime: "audio/mpeg", kind: AssetKind::Audio },
        FormatDescriptor { id: "wav", extensions: &["wav"], mime: "audio/wav", kind: AssetKind::Audio },
        FormatDescriptor { id: "flac", extensions: &["flac"], mime: "audio/flac", kind: AssetKind::Audio },
        FormatDescriptor { id: "pdf", extensions: &["pdf"], mime: "application/pdf", kind: AssetKind::Pdf },
    ]
}

/// The registry of recognized asset formats.
pub fn format_registry() -> (r: Vec<FormatDescriptor>)
    ensures
        r@ == spec_registry(),
{
    let r = vec![
        FormatDescriptor { id: "png", extensions: &["png"], mime: "image/png", kind: AssetKind::Image },
        FormatDescriptor { id: "jpeg", extensions: &["jpg", "jpeg"], mime: "image/jpeg", kind: AssetKind::Image },
        FormatDescriptor { id: "gif", extensions: &["gif"], mime: "image/gif", kind: AssetKind::Image },
        FormatDescriptor { id: "webp", extensions: &["webp"], mime: "image/webp", kind: AssetKind::Image },
        FormatDescriptor { id: "svg", extensions: &["svg"], mime: "image/svg+xml", kind: AssetKind::Image },
        FormatDescriptor { id: "avif", extensions: &["avif"], mime: "image/avif", kind: AssetKind::Image },
        FormatDescriptor { id: "heic", extensions: &["heic"], mime: "image/heic", kind: AssetKind::Image },
        FormatDescriptor { id: "heif", extensions: &["heif"], mime: "image/heif", kind: AssetKind::Image },
        FormatDescriptor { id: "mp4", extensions: &["mp4", "m4v"], mime: "video/mp4", kind: AssetKind::Video },
        FormatDescriptor { id: "mov", extensions: &["mov"], mime: "video/quicktime", kind: AssetKind::Video },
        FormatDescriptor { id: "webm", extensions: &["webm"], mime: "video/webm", kind: AssetKind::Video },
        FormatDescriptor { id: "mp3", extensions: &["mp3"], mime: "audio/mpeg", kind: AssetKind::Audio },
        FormatDescriptor { id: "wav", extensions: &["wav"], mime: "audio/wav", kind: AssetKind::Audio },
        FormatDescriptor { id: "flac", extensions: &["flac"], mime: "audio/flac", kind: AssetKind::Audio },
        FormatDescriptor { id: "pdf", extensions: &["pdf"], mime: "application/pdf", kind: AssetKind::Pdf },
    ];
    assert(r@ =~= spec_registry());
    r
}

/// `d` lists `ext` among its extensions.
pub open spec fn lists_extension(d: FormatDescriptor, ext: Seq<char>) -> bool {
    exists|k: int| 0 <= k < d.extensions@.len() && (#[trigger] d.extensions@[k])@ == ext
}

/// Index of the first registered format that lists `ext`.
pub open spec fn first_with_extension(reg: Seq<FormatDescriptor>, ext: Seq<char>) -> Option<int>
    decreases reg.len(),
{
    if reg.len() == 0 {
        None
    } else if lists_extension(reg[0], ext) {
        Some(0)
    } else {
        match first_with_extension(reg.drop_first(), ext) {
            Some(i) => Some(i + 1),
            None => None,
        }
    }
}

/// Index of the first registered format with identifier `id`.
pub open spec fn first_with_id(reg: Seq<FormatDescriptor>, id: Seq<char>) -> Option<int>
    decreases reg.len(),
{
    if reg.len() == 0 {
        None
    } else if reg[0].id@ == id {
        Some(0)
    } else {
        match first_with_id(reg.drop_first(), id) {
            Some(i) => Some(i + 1),
            None => None,
        }
    }
}

pub proof fn lemma_first_with_extension(reg: Seq<FormatDescriptor>, ext: Seq<char>)
    ensures
        match first_with_extension(reg, ext) {
            Some(i) => 0 <= i < reg.len() && lists_extension(reg[i], ext) && forall|j: int|
                0 <= j < i ==> !lists_extension(#[trigger] reg[j], ext),
            None => forall|j: int| 0 <= j < reg.len() ==> !lists_extension(#[trigger] reg[j], ext),
        },
    decreases reg.len(),
{
    if reg.len() > 0 {
        lemma_first_with_extension(reg.drop_first(), ext);
        assert forall|j: int| 1 <= j < reg.len() implies reg[j] == reg.drop_first()[j - 1] by {}
    }
}

pub proof fn lemma_first_with_id(reg: Seq<FormatDescriptor>, id: Seq<char>)
    ensures
        match first_with_id(reg, id) {
            Some(i) => 0 <= i < reg.len() && reg[i].id@ == id && forall|j: int|
                0 <= j < i ==> (#[trigger] reg[j]).id@ != id,
            None => forall|j: int| 0 <= j < reg.len() ==> (#[trigger] reg[j]).id@ != id,
        },
    decreases reg.len(),
{
    if reg.len() > 0 {
        lemma_first_with_id(reg.drop_first(), id);
        assert forall|j: int| 1 <= j < reg.len() implies reg[j] == reg.drop_first()[j - 1] by {}
    }
}

/// Number of leading `c` characters.
pub open spec fn leading_count(s: Seq<char>, c: char) -> int
    decreases s.len(),
{
    if s.len() > 0 && s[0] == c {
        1 + leading_count(s.drop_first(), c)
    } else {
        0
    }
}

pub proof fn lemma_leading_count(s: Seq<char>, c: char, k: int)
    requires
        0 <= k <= s.len(),
        forall|j: int| 0 <= j < k ==> #[trigger] s[j] == c,
        k < s.len() ==> s[k] != c,
    ensures
        leading_count(s, c) == k,
    decreases s.len(),
{
    if s.len() > 0 && s[0] == c {
        assert forall|j: int| 0 <= j < k - 1 implies #[trigger] s.drop_first()[j] == c by {
            assert(s.drop_first()[j] == s[j + 1]);
        }
        if k - 1 < s.len() - 1 {
            assert(s.drop_first()[k - 1] == s[k]);
        }
        lemma_leading_count(s.drop_first(), c, k - 1);
    }
}

/// `str::trim_start_matches(c)`.
pub open spec fn strip_leading(s: Seq<char>, c: char) -> Seq<char> {
    s.subrange(leading_count(s, c), s.len() as int)
}

fn strip_leading_exec(s: &[char], c: char) -> (r: Vec<char>)
    ensures
        r@ == strip_leading(s@, c),
{
    let mut k: usize = 0;
    while k < s.len() && s[k] == c
        invariant
            k <= s.len(),
            forall|j: int| 0 <= j < k ==> #[trigger] s@[j] == c,
        decreases s.len() - k,
    {
        k = k + 1;
    }
    proof {
        lemma_leading_count(s@, c, k as int);
    }
    subslice(s, k, s.len())
}

/// The extension normalized as registry entries spell it: leading dots removed, ASCII
/// lower case.
pub open spec fn normalized_extension(ext: Seq<char>) -> Seq<char> {
    lower_seq(strip_leading(ext, '.'))
}

pub open spec fn spec_descriptor_for_extension(extension: Option<Seq<char>>) -> Option<
    FormatDescriptor,
> {
    match extension {
        None => None,
        Some(ext) => match first_with_extension(spec_registry(), normalized_extension(ext)) {
            Some(i) => Some(spec_registry()[i]),
            None => None,
        },
    }
}

fn lists_extension_exec(d: &FormatDescriptor, ext: &[char]) -> (r: bool)
    ensures
        r == lists_extension(*d, ext@),
{
    let mut k: usize = 0;
    while k < d.extensions.len()
        invariant
            k <= d.extensions@.len(),
            forall|j: int| 0 <= j < k ==> (#[trigger] d.extensions@[j])@ != ext@,
        decreases d.extensions@.len() - k,
    {
        if slice_eq(&chars_of(d.extensions[k]), ext) {
            return true;
        }
        k = k + 1;
    }
    false
}

/// The registered format whose extension list holds `extension`, matched without case and
/// without leading dots.
pub fn descriptor_for_extension(extension: Option<&str>) -> (r: Option<FormatDescriptor>)
    ensures
        r == spec_descriptor_for_extension(
            match extension {
                Some(e) => Some(e@),
                None => None,
            },
        ),
{
    let ext = match extension {
        None => return None,
        Some(e) => e,
    };
    assert(extension == Some(ext));
    let normalized = lower_chars(&strip_leading_exec(&chars_of(ext), '.'));
    let registry = format_registry();
    let ghost reg = registry@;
    proof {
        lemma_first_with_extension(reg, normalized@);
    }
    let mut i: usize = 0;
    while i < registry.len()
        invariant
            i <= registry.len(),
            reg == registry@,
            reg == spec_registry(),
            normalized@ == normalized_extension(ext@),
            extension == Some(ext),
            forall|j: int| 0 <= j < i ==> !lists_extension(#[trigger] reg[j], normalized@),
        decreases registry.len() - i,
    {
        if lists_extension_exec(&registry[i], &normalized) {
            proof {
                lemma_first_with_extension(reg, normalized@);
                let f = first_with_extension(reg, normalized@);
                match f {
                    None => assert(!lists_extension(reg[i as int], normalized@)),
                    Some(k) => if k < i {
                        assert(!lists_extension(reg[k], normalized@));
                    } else if k > i {
                        assert(!lists_extension(reg[i as int], normalized@));
                    },
                }
                assert(first_with_extension(spec_registry(), normalized_extension(ext@)) == Some(
                    i as int,
                ));
                assert(spec_descriptor_for_extension(Some(ext@)) == Some(registry@[i as int]));
            }
            return Some(registry[i]);
        }
        i = i + 1;
    }
    proof {
        let f = first_with_extension(reg, normalized@);
        if f is Some {
            assert(!lists_extension(reg[f->0], normalized@));
        }
    }
    None
}

fn descriptor_with_id(id: &str) -> (r: Option<FormatDescriptor>)
    ensures
        r == (match first_with_id(spec_registry(), id@) {
            Some(i) => Some(spec_registry()[i]),
            None => None,
        }),
{
    let wanted = chars_of(id);
    let registry = format_registry();
    let ghost reg = registry@;
    proof {
        lemma_first_with_id(reg, id@);
    }
    let mut i: usize = 0;
    while i < registry.len()
        invariant
            i <= registry.len(),
            reg == registry@,
            reg == spec_registry(),
            wanted@ == id@,
            forall|j: int| 0 <= j < i ==> (#[trigger] reg[j]).id@ != id@,
        decreases registry.len() - i,
    {
        if slice_eq(&chars_of(registry[i].id), &wanted) {
            proof {
                lemma_first_with_id(reg, id@);
                let f = first_with_id(reg, id@);
                match f {
                    None => assert(reg[i as int].id@ != id@),
                    Some(k) => if k < i {
                        assert(reg[k].id@ != id@);
                    } else if k > i {
                        assert(reg[i as int].id@ != id@);
                    },
                }
            }
            return Some(registry[i]);
        }
        i = i + 1;
    }
    proof {
        let f = first_with_id(reg, id@);
        if f is Some {
            assert(reg[f->0].id@ != id@);
        }
    }
    None
}

pub open spec fn lower_byte(b: u8) -> u8 {
    if 0x41 <= b && b <= 0x5a {
        (b + 32) as u8
    } else {
        b
    }
}

/// The window of `haystack` at `i` equals `needle` up to ASCII case.
pub open spec fn matches_at(haystack: Seq<u8>, needle: Seq<u8>, i: int) -> bool {
    0 <= i && i + needle.len() <= haystack.len() && forall|j: int|
        0 <= j < needle.len() ==> lower_byte(#[trigger] haystack[i + j]) == lower_byte(needle[j])
}

/// `haystack` holds a window equal to `needle` up to ASCII case.
pub open spec fn contains_ignoring_case(haystack: Seq<u8>, needle: Seq<u8>) -> bool {
    exists|i: int| #[trigger] matches_at(haystack, needle, i)
}

pub fn find_ascii_case_insensitive(haystack: &[u8], needle: &[u8]) -> (r: bool)
    requires
        needle.len() > 0,
    ensures
        r == contains_ignoring_case(haystack@, needle@),
{
    if needle.len() > haystack.len() {
        return false;
    }
    let mut i: usize = 0;
    while i <= haystack.len() - needle.len()
        invariant
            needle.len() <= haystack.len(),
            i <= haystack.len() - needle.len() + 1,
            forall|s: int| 0 <= s < i ==> !#[trigger] matches_at(haystack@, needle@, s),
        decreases haystack.len() - i,
    {
        let mut j: usize = 0;
        let mut same = true;
        while j < needle.len()
            invariant
                j <= needle.len(),
                i + needle.len() <= haystack.len(),
                same ==> forall|t: int|
                    0 <= t < j ==> lower_byte(#[trigger] haystack@[i + t]) == lower_byte(needle@[t]),
                !same ==> !matches_at(haystack@, needle@, i as int),
            decreases needle.len() - j,
        {
            let a = haystack[i + j];
            let b = needle[j];
            let la = if 0x41 <= a && a <= 0x5a { a + 32 } else { a };
            let lb = if 0x41 <= b && b <= 0x5a { b + 32 } else { b };
            if la != lb {
                same = false;
                assert(lower_byte(haystack@[i + j]) != lower_byte(needle@[j as int]));
            }
            j = j + 1;
        }
        if same {
            assert(matches_at(haystack@, needle@, i as int));
            return true;
        }
        i = i + 1;
    }
    proof {
        assert forall|s: int| !#[trigger] matches_at(haystack@, needle@, s) by {
            if matches_at(haystack@, needle@, s) {
                assert(s < i);
            }
        }
    }
    false
}

/// An MPEG audio frame header without its reserved version, layer, bit rate or sample
/// rate values.
pub open spec fn spec_mpeg_audio_sync(p: Seq<u8>) -> bool {
    p.len() >= 4 && p[0] == 0xff && p[1] & 0xe0 == 0xe0 && p[1] & 0x18 != 0x08 && p[1] & 0x06
        != 0 && p[2] & 0xf0 != 0xf0 && p[2] & 0x0c != 0x0c
}

pub fn has_mpeg_audio_sync(prefix: &[u8]) -> (r: bool)
    ensures
        r == spec_mpeg_audio_sync(prefix@),
{
    prefix.len() >= 4 && prefix[0] == 0xff && prefix[1] & 0xe0 == 0xe0 && prefix[1] & 0x18 != 0x08
        && prefix[1] & 0x06 != 0 && prefix[2] & 0xf0 != 0xf0 && prefix[2] & 0x0c != 0x0c
}

/// `pat` occurs in `s` at index `i`.
pub open spec fn occurs_at(s: Seq<char>, pat: Seq<char>, i: int) -> bool {
    0 <= i && i + pat.len() <= s.len() && s.subrange(i, i + pat.len()) == pat
}

/// Index of the first occurrence of `pat` in `s`.
#[verifier::opaque]
pub open spec fn first_occurrence(s: Seq<char>, pat: Seq<char>) -> Option<int> {
    if exists|i: int| #[trigger] occurs_at(s, pat, i) {
        Some(
            choose|i: int|
                #[trigger] occurs_at(s, pat, i) && forall|j: int| 0 <= j < i ==> !#[trigger] occurs_at(s, pat, j),
        )
    } else {
        None
    }
}

/// An `<svg` start tag opens the text, followed by white space or `>`.
pub open spec fn opens_svg_element(t: Seq<char>) -> bool {
    t.len() >= 5 && lower_seq(t.subrange(0, 4)) == seq!['<', 's', 'v', 'g'] && (t[4] == ' '
        || t[4] == '\t' || t[4] == '\n' || t[4] == '\x0c' || t[4] == '\r' || t[4] == '>')
}

/// The text after the first `?>` opens an `svg` element.
pub open spec fn svg_after_declaration(t: Seq<char>) -> bool {
    match first_occurrence(t, seq!['?', '>']) {
        None => false,
        Some(end) => opens_svg_element(trim_start_seq(t.subrange(end + 2, t.len() as int))),
    }
}

/// The prefix is UTF-8 text whose first element, after byte order marks, white space and
/// an optional XML declaration, is an `svg` element.
pub open spec fn spec_looks_like_svg(p: Seq<u8>) -> bool {
    valid_utf8(p) && {
        let t = svg_candidate_text(p);
        if has_prefix(t, seq!['<', '?', 'x', 'm', 'l']) {
            svg_after_declaration(t)
        } else {
            opens_svg_element(t)
        }
    }
}

/// `std::str::from_utf8`, with the decoded text as characters.
#[verifier::external_body]
fn decode_utf8_text(bytes: &[u8]) -> (r: Option<Vec<char>>)
    ensures
        r is Some <==> valid_utf8(bytes@),
        r matches Some(v) ==> v@ == decode_utf8(bytes@),
{
    std::str::from_utf8(bytes).ok().map(|text| text.chars().collect())
}

fn trim_start_exec(s: &[char]) -> (r: Vec<char>)
    ensures
        r@ == trim_start_seq(s@),
{
    let k = skip_white(s, 0);
    proof {
        lemma_first_non_white_char(s@, k as int);
    }
    subslice(s, k, s.len())
}

fn find_pair(s: &[char], a: char, b: char) -> (r: Option<usize>)
    ensures
        r is None <==> first_occurrence(s@, seq![a, b]) is None,
        r matches Some(i) ==> first_occurrence(s@, seq![a, b]) == Some(i as int) && i + 2 <= s.len(),
{
    reveal(first_occurrence);
    let ghost pat = seq![a, b];
    let mut i: usize = 0;
    while s.len() >= 2 && i < s.len() - 1
        invariant
            i <= s.len(),
            pat == seq![a, b],
            forall|j: int| 0 <= j < i ==> !#[trigger] occurs_at(s@, pat, j),
        decreases s.len() - i,
    {
        if s[i] == a && s[i + 1] == b {
            assert(s@.subrange(i as int, i + 2) =~= pat);
            assert(occurs_at(s@, pat, i as int));
            assert(first_occurrence(s@, pat) == Some(i as int)) by {
                reveal(first_occurrence);
                let c = choose|k: int|
                    #[trigger] occurs_at(s@, pat, k) && forall|j: int| 0 <= j < k ==> !#[trigger] occurs_at(s@, pat, j);
                assert(occurs_at(s@, pat, i as int) && forall|j: int| 0 <= j < i ==> !#[trigger] occurs_at(s@, pat, j));
                if c > i {
                    assert(!occurs_at(s@, pat, i as int));
                }
            }
            return Some(i);
        }
        assert(!occurs_at(s@, pat, i as int)) by {
            if s@.subrange(i as int, i + 2) == pat {
                assert(s@.subrange(i as int, i + 2)[0] == s@[i as int]);
                assert(s@.subrange(i as int, i + 2)[1] == s@[i + 1]);
            }
        }
        i = i + 1;
    }
    assert forall|k: int| !#[trigger] occurs_at(s@, pat, k) by {
        if occurs_at(s@, pat, k) {
            assert(k < i);
        }
    }
    None
}

fn opens_svg_element_exec(t: &[char]) -> (r: bool)
    ensures
        r == opens_svg_element(t@),
{
    if t.len() < 5 {
        return false;
    }
    let head = lower_chars(&subslice(t, 0, 4));
    let svg = chars_of("<svg");
    proof {
        reveal_strlit("<svg");
    }
    assert(svg@ =~= seq!['<', 's', 'v', 'g']);
    if !slice_eq(&head, &svg) {
        return false;
    }
    let c = t[4];
    c == ' ' || c == '\t' || c == '\n' || c == '\x0c' || c == '\r' || c == '>'
}

/// The decoded prefix after byte order marks and leading white space.
pub open spec fn svg_candidate_text(p: Seq<u8>) -> Seq<char> {
    trim_start_seq(strip_leading(decode_utf8(p), '\u{feff}'))
}

fn svg_candidate(prefix: &[u8]) -> (r: Option<Vec<char>>)
    ensures
        r is Some <==> valid_utf8(prefix@),
        r matches Some(t) ==> t@ == svg_candidate_text(prefix@),
{
    match decode_utf8_text(prefix) {
        None => None,
        Some(text) => Some(trim_start_exec(&strip_leading_exec(&text, '\u{feff}'))),
    }
}

fn svg_after_declaration_exec(t: &[char]) -> (r: bool)
    ensures
        r == svg_after_declaration(t@),
{
    let found = find_pair(t, '?', '>');
    assert(seq!['?', '>'] =~= seq!['?', '>']);
    match found {
        None => {
            assert(first_occurrence(t@, seq!['?', '>']) is None);
            false
        },
        Some(end) => {
            let tail = subslice(t, end + 2, t.len());
            let rest = trim_start_exec(&tail);
            let r = opens_svg_element_exec(&rest);
            assert(r == opens_svg_element(trim_start_seq(t@.subrange(end + 2, t@.len() as int))));
            r
        },
    }
}

pub fn looks_like_svg(prefix: &[u8]) -> (r: bool)
    ensures
        r == spec_looks_like_svg(prefix@),
{
    let t = match svg_candidate(prefix) {
        None => return false,
        Some(t) => t,
    };
    let xml = chars_of("<?xml");
    proof {
        reveal_strlit("<?xml");
    }
    assert(xml@ =~= seq!['<', '?', 'x', 'm', 'l']);
    if starts_with(&t, &xml) {
        svg_after_declaration_exec(&t)
    } else {
        opens_svg_element_exec(&t)
    }
}

pub open spec fn riff_form(p: Seq<u8>, form: Seq<u8>) -> bool {
    p.len() >= 12 && p.subrange(0, 4) == seq![0x52u8, 0x49, 0x46, 0x46] && p.subrange(8, 12)
        == form
}

/// Identifier of the format that a content signature selects, checked in registry priority:
/// PNG, JPEG, GIF, WebP, FLAC, WAV, PDF, MP3, WebM, ISO BMFF, SVG.
pub open spec fn content_format_id(p: Seq<u8>) -> Option<&'static str> {
    if bytes_prefix(p, seq![0x89u8, 0x50, 0x4e, 0x47, 0x0d, 0x0a, 0x1a, 0x0a]) {
        Some("png")
    } else if bytes_prefix(p, seq![0xffu8, 0xd8, 0xff]) {
        Some("jpeg")
    } else if bytes_prefix(p, seq![0x47u8, 0x49, 0x46, 0x38, 0x37, 0x61]) || bytes_prefix(
        p,
        seq![0x47u8, 0x49, 0x46, 0x38, 0x39, 0x61],
    ) {
        Some("gif")
    } else if riff_form(p, seq![0x57u8, 0x45, 0x42, 0x50]) {
        Some("webp")
    } else if bytes_prefix(p, seq![0x66u8, 0x4c, 0x61, 0x43]) {
        Some("flac")
    } else if riff_form(p, seq![0x57u8, 0x41, 0x56, 0x45]) {
        Some("wav")
    } else if bytes_prefix(p, seq![0x25u8, 0x50, 0x44, 0x46, 0x2d]) {
        Some("pdf")
    } else if bytes_prefix(p, seq![0x49u8, 0x44, 0x33]) || spec_mpeg_audio_sync(p) {
        Some("mp3")
    } else if bytes_prefix(p, seq![0x1au8, 0x45, 0xdf, 0xa3]) && contains_ignoring_case(
        p,
        seq![0x77u8, 0x65, 0x62, 0x6d],
    ) {
        Some("webm")
    } else if file_type_of(p) is Some {
        Some(file_type_of(p)->0.spec_format_id())
    } else if spec_looks_like_svg(p) {
        Some("svg")
    } else {
        None
    }
}

pub open spec fn spec_descriptor_for_content(p: Seq<u8>) -> Option<FormatDescriptor> {
    match content_format_id(p) {
        None => None,
        Some(id) => match first_with_id(spec_registry(), id@) {
            Some(i) => Some(spec_registry()[i]),
            None => None,
        },
    }
}

fn riff_form_exec(p: &[u8], form: &[u8; 4]) -> (r: bool)
    ensures
        r == riff_form(p@, form@),
{
    if p.len() < 12 {
        return false;
    }
    let riff: [u8; 4] = [0x52, 0x49, 0x46, 0x46];
    let head = bytes_starts_with(p, &riff);
    assert(head == (p@.subrange(0, 4) == seq![0x52u8, 0x49, 0x46, 0x46])) by {
        assert(riff@ =~= seq![0x52u8, 0x49, 0x46, 0x46]);
    }
    let same = p[8] == form[0] && p[9] == form[1] && p[10] == form[2] && p[11] == form[3];
    assert(same == (p@.subrange(8, 12) == form@)) by {
        if p@.subrange(8, 12) == form@ {
            assert(p@.subrange(8, 12)[0] == p@[8]);
            assert(p@.subrange(8, 12)[1] == p@[9]);
            assert(p@.subrange(8, 12)[2] == p@[10]);
            assert(p@.subrange(8, 12)[3] == p@[11]);
        }
        if same {
            assert(p@.subrange(8, 12) =~= form@);
        }
    }
    head && same
}

use crate::text::bytes_starts_with;

pub fn descriptor_for_content(prefix: &[u8]) -> (r: Option<FormatDescriptor>)
    ensures
        r == spec_descriptor_for_content(prefix@),
{
    let png: [u8; 8] = [0x89, 0x50, 0x4e, 0x47, 0x0d, 0x0a, 0x1a, 0x0a];
    let jpeg: [u8; 3] = [0xff, 0xd8, 0xff];
    let gif7: [u8; 6] = [0x47, 0x49, 0x46, 0x38, 0x37, 0x61];
    let gif9: [u8; 6] = [0x47, 0x49, 0x46, 0x38, 0x39, 0x61];
    let webp: [u8; 4] = [0x57, 0x45, 0x42, 0x50];
    let flac: [u8; 4] = [0x66, 0x4c, 0x61, 0x43];
    let wave: [u8; 4] = [0x57, 0x41, 0x56, 0x45];
    let pdf: [u8; 5] = [0x25, 0x50, 0x44, 0x46, 0x2d];
    let id3: [u8; 3] = [0x49, 0x44, 0x33];
    let ebml: [u8; 4] = [0x1a, 0x45, 0xdf, 0xa3];
    let webm: [u8; 4] = [0x77, 0x65, 0x62, 0x6d];
    proof {
        assert(png@ =~= seq![0x89u8, 0x50, 0x4e, 0x47, 0x0d, 0x0a, 0x1a, 0x0a]);
        assert(jpeg@ =~= seq![0xffu8, 0xd8, 0xff]);
        assert(gif7@ =~= seq![0x47u8, 0x49, 0x46, 0x38, 0x37, 0x61]);
        assert(gif9@ =~= seq![0x47u8, 0x49, 0x46, 0x38, 0x39, 0x61]);
        assert(webp@ =~= seq![0x57u8, 0x45, 0x42, 0x50]);
        assert(flac@ =~= seq![0x66u8, 0x4c, 0x61, 0x43]);
        assert(wave@ =~= seq![0x57u8, 0x41, 0x56, 0x45]);
        assert(pdf@ =~= seq![0x25u8, 0x50, 0x44, 0x46, 0x2d]);
        assert(id3@ =~= seq![0x49u8, 0x44, 0x33]);
        assert(ebml@ =~= seq![0x1au8, 0x45, 0xdf, 0xa3]);
        assert(webm@ =~= seq![0x77u8, 0x65, 0x62, 0x6d]);
    }
    let id: &'static str = if bytes_starts_with(prefix, &png) {
        "png"
    } else if bytes_starts_with(prefix, &jpeg) {
        "jpeg"
    } else if bytes_starts_with(prefix, &gif7) || bytes_starts_with(prefix, &gif9) {
        "gif"
    } else if riff_form_exec(prefix, &webp) {
        "webp"
    } else if bytes_starts_with(prefix, &flac) {
        "flac"
    } else if riff_form_exec(prefix, &wave) {
        "wav"
    } else if bytes_starts_with(prefix, &pdf) {
        "pdf"
    } else if bytes_starts_with(prefix, &id3) || has_mpeg_audio_sync(prefix) {
        "mp3"
    } else if bytes_starts_with(prefix, &ebml) && find_ascii_case_insensitive(prefix, &webm) {
        "webm"
    } else if let Some(kind) = classify_file_type(prefix) {
        kind.format_id()
    } else if looks_like_svg(prefix) {
        "svg"
    } else {
        return None;
    };
    descriptor_with_id(id)
}

pub open spec fn spec_recognize_format(extension: Option<Seq<char>>, prefix: Seq<u8>) -> Option<
    FormatRecognition,
> {
    let candidate = spec_descriptor_for_extension(extension);
    match spec_descriptor_for_content(prefix) {
        Some(d) => Some(
            FormatRecognition {
                descriptor: d,
                source: RecognitionSource::Content,
                extension_mismatch: candidate is Some && candidate->0.id@ != d.id@,
            },
        ),
        None => match candidate {
            Some(c) => Some(
                FormatRecognition {
                    descriptor: c,
                    source: RecognitionSource::Extension,
                    extension_mismatch: false,
                },
            ),
            None => None,
        },
    }
}

/// What recognition answers, for every extension and content prefix: a recognized content
/// signature decides the format, and the file is flagged exactly when its extension names
/// a registered format with another identifier; without a recognized signature the
/// extension's format is taken, never flagged; with neither there is no answer.
pub proof fn lemma_recognition_flags_only_differing_extensions(extension: Option<Seq<char>>, prefix: Seq<u8>)
    ensures
        match spec_descriptor_for_content(prefix) {
            Some(d) => spec_recognize_format(extension, prefix) matches Some(r) && r.descriptor == d && r.source
                == RecognitionSource::Content && (r.extension_mismatch <==> (spec_descriptor_for_extension(extension) matches Some(
                c,
            ) && c.id@ != d.id@)),
            None => match spec_descriptor_for_extension(extension) {
                Some(c) => spec_recognize_format(extension, prefix) matches Some(r) && r.descriptor == c && r.source
                    == RecognitionSource::Extension && !r.extension_mismatch,
                None => spec_recognize_format(extension, prefix) is None,
            },
        },
        spec_recognize_format(extension, prefix) matches Some(r) ==> (spec_descriptor_for_extension(extension) matches Some(
            c,
        ) ==> (c.id@ == r.descriptor.id@ ==> !r.extension_mismatch)),
{
}

/// Recognizes a registered format. A bounded content signature is authoritative; a known
/// extension is only a fallback for truncated or temporarily undecodable files.
pub fn recognize_format(extension: Option<&str>, prefix: &[u8]) -> (r: Option<FormatRecognition>)
    ensures
        r == spec_recognize_format(
            match extension {
                Some(e) => Some(e@),
                None => None,
            },
            prefix@,
        ),
{
    let candidate = descriptor_for_extension(extension);
    match descriptor_for_content(prefix) {
        Some(descriptor) => {
            let mismatch = match candidate {
                Some(c) => !slice_eq(&chars_of(c.id), &chars_of(descriptor.id)),
                None => false,
            };
            Some(
                FormatRecognition {
                    descriptor,
                    source: RecognitionSource::Content,
                    extension_mismatch: mismatch,
                },
            )
        },
        None => match candidate {
            Some(c) => Some(
                FormatRecognition {
                    descriptor: c,
                    source: RecognitionSource::Extension,
                    extension_mismatch: false,
                },
            ),
            None => None,
        },
    }
}

} // verus!
