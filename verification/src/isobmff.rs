//! Classification of ISO base media files from their first, bounded `ftyp` box.
use vstd::prelude::*;

verus! {

#[derive(Debug, Clone, Copy, PartialEq, Eq, Structural)]
pub enum IsoBmffKind {
    Avif,
    Heic,
    Heif,
    Mp4,
    Mov,
}

impl IsoBmffKind {
    pub open spec fn spec_format_id(self) -> &'static str {
        match self {
            IsoBmffKind::Avif => "avif",
            IsoBmffKind::Heic => "heic",
            IsoBmffKind::Heif => "heif",
            IsoBmffKind::Mp4 => "mp4",
            IsoBmffKind::Mov => "mov",
        }
    }

    /// The identifier of the registered format that this file type belongs to.
    pub fn format_id(self) -> (id: &'static str)
        ensures
            id == self.spec_format_id(),
    {
        match self {
            IsoBmffKind::Avif => "avif",
            IsoBmffKind::Heic => "heic",
            IsoBmffKind::Heif => "heif",
            IsoBmffKind::Mp4 => "mp4",
            IsoBmffKind::Mov => "mov",
        }
    }
}

pub open spec fn be_u32(b: Seq<u8>) -> int {
    b[0] * 0x1000000 + b[1] * 0x10000 + b[2] * 0x100 + b[3]
}

pub open spec fn be_u64(b: Seq<u8>) -> int {
    be_u32(b.subrange(0, 4)) * 0x1_0000_0000 + be_u32(b.subrange(4, 8))
}

/// The brands of a well-formed `ftyp` box: the start of the major brand and the end of the
/// whole brands that the signature window holds, as byte offsets into the prefix.
pub open spec fn ftyp_layout(p: Seq<u8>) -> Option<(int, int)> {
    if p.len() < 8 || p.subrange(4, 8) != seq![0x66u8, 0x74, 0x79, 0x70] {
        None
    } else {
        let size32 = be_u32(p.subrange(0, 4));
        if size32 == 1 && p.len() < 16 {
            None
        } else {
            let header: int = if size32 == 1 { 16 } else { 8 };
            let declared: Option<int> = if size32 == 0 {
                None
            } else if size32 == 1 {
                Some(be_u64(p.subrange(8, 16)))
            } else {
                Some(size32)
            };
            let minimum = header + 8;
            if declared is Some && declared->0 < minimum {
                None
            } else {
                let available_end: int = match declared {
                    Some(size) => if size <= usize::MAX && size < p.len() { size } else { p.len() as int },
                    None => p.len() as int,
                };
                if available_end < minimum {
                    None
                } else {
                    Some((header, minimum + (available_end - minimum) / 4 * 4))
                }
            }
        }
    }
}

/// `brand` is the major brand at `header` or one of the compatible brands that follow the
/// minor version, up to `end`.
pub open spec fn has_brand(p: Seq<u8>, header: int, end: int, brand: Seq<u8>) -> bool {
    p.subrange(header, header + 4) == brand || exists|k: int|
        0 <= k && header + 8 + 4 * k + 4 <= end && #[trigger] p.subrange(
            header + 8 + 4 * k,
            header + 8 + 4 * k + 4,
        ) == brand
}

pub open spec fn has_any_brand(p: Seq<u8>, header: int, end: int, brands: Seq<Seq<u8>>) -> bool {
    exists|i: int| 0 <= i < brands.len() && has_brand(p, header, end, #[trigger] brands[i])
}

pub open spec fn avif_brands() -> Seq<Seq<u8>> {
    seq![seq![0x61u8, 0x76, 0x69, 0x66], seq![0x61u8, 0x76, 0x69, 0x73]]
}

pub open spec fn heic_brands() -> Seq<Seq<u8>> {
    seq![
        seq![0x68u8, 0x65, 0x69, 0x63],
        seq![0x68u8, 0x65, 0x69, 0x78],
        seq![0x68u8, 0x65, 0x76, 0x63],
        seq![0x68u8, 0x65, 0x76, 0x78],
        seq![0x68u8, 0x65, 0x69, 0x6d],
        seq![0x68u8, 0x65, 0x69, 0x73],
        seq![0x68u8, 0x65, 0x76, 0x6d],
        seq![0x68u8, 0x65, 0x76, 0x73],
    ]
}

pub open spec fn heif_brands() -> Seq<Seq<u8>> {
    seq![
        seq![0x68u8, 0x65, 0x69, 0x66],
        seq![0x6du8, 0x69, 0x66, 0x31],
        seq![0x6du8, 0x73, 0x66, 0x31],
    ]
}

pub open spec fn mov_brands() -> Seq<Seq<u8>> {
    seq![seq![0x71u8, 0x74, 0x20, 0x20]]
}

pub open spec fn mp4_brands() -> Seq<Seq<u8>> {
    seq![
        seq![0x69u8, 0x73, 0x6f, 0x6d],
        seq![0x69u8, 0x73, 0x6f, 0x32],
        seq![0x69u8, 0x73, 0x6f, 0x33],
        seq![0x69u8, 0x73, 0x6f, 0x34],
        seq![0x69u8, 0x73, 0x6f, 0x35],
        seq![0x69u8, 0x73, 0x6f, 0x36],
        seq![0x61u8, 0x76, 0x63, 0x31],
        seq![0x64u8, 0x61, 0x73, 0x68],
        seq![0x4du8, 0x34, 0x56, 0x20],
        seq![0x6du8, 0x70, 0x34, 0x31],
        seq![0x6du8, 0x70, 0x34, 0x32],
        seq![0x6du8, 0x70, 0x37, 0x31],
    ]
}

/// The file type that the first `ftyp` box of a prefix declares, checked in the order
/// AVIF, HEIC, HEIF, QuickTime, MP4.
pub open spec fn file_type_of(p: Seq<u8>) -> Option<IsoBmffKind> {
    match ftyp_layout(p) {
        None => None,
        Some((header, end)) => if has_any_brand(p, header, end, avif_brands()) {
            Some(IsoBmffKind::Avif)
        } else if has_any_brand(p, header, end, heic_brands()) {
            Some(IsoBmffKind::Heic)
        } else if has_any_brand(p, header, end, heif_brands()) {
            Some(IsoBmffKind::Heif)
        } else if has_any_brand(p, header, end, mov_brands()) {
            Some(IsoBmffKind::Mov)
        } else if has_any_brand(p, header, end, mp4_brands()) {
            Some(IsoBmffKind::Mp4)
        } else {
            None
        },
    }
}

/// The brands of a parsed `ftyp` box, as offsets into the prefix it was parsed from.
#[derive(Debug, Clone, Copy)]
pub struct FileTypeBrands {
    pub major_start: usize,
    pub compatible_end: usize,
}

fn read_be_u32(p: &[u8], at: usize) -> (v: u64)
    requires
        at + 4 <= p.len(),
    ensures
        v == be_u32(p@.subrange(at as int, at + 4)),
{
    (p[at] as u64) * 0x1000000 + (p[at + 1] as u64) * 0x10000 + (p[at + 2] as u64) * 0x100 + (p[at
        + 3] as u64)
}

impl FileTypeBrands {
    /// Parses the first box of `prefix` as an `ftyp` box; `None` when it is not one or is
    /// structurally invalid.
    pub fn parse(prefix: &[u8]) -> (r: Option<FileTypeBrands>)
        ensures
            match ftyp_layout(prefix@) {
                None => r is None,
                Some((header, end)) => r matches Some(b) && b.major_start == header
                    && b.compatible_end == end,
            },
    {
        if prefix.len() < 8 || prefix[4] != 0x66 || prefix[5] != 0x74 || prefix[6] != 0x79
            || prefix[7] != 0x70 {
            proof {
                if prefix.len() >= 8 {
                    assert(prefix@.subrange(4, 8) != seq![0x66u8, 0x74, 0x79, 0x70]) by {
                        let s = prefix@.subrange(4, 8);
                        if s == seq![0x66u8, 0x74, 0x79, 0x70] {
                            assert(s[0] == prefix@[4]);
                            assert(s[1] == prefix@[5]);
                            assert(s[2] == prefix@[6]);
                            assert(s[3] == prefix@[7]);
                        }
                    }
                }
            }
            return None;
        }
        assert(prefix@.subrange(4, 8) =~= seq![0x66u8, 0x74, 0x79, 0x70]);
        let size32 = read_be_u32(prefix, 0);
        let header: usize;
        let declared: Option<u64>;
        if size32 == 0 {
            header = 8;
            declared = None;
        } else if size32 == 1 {
            if prefix.len() < 16 {
                return None;
            }
            let high = read_be_u32(prefix, 8);
            let low = read_be_u32(prefix, 12);
            proof {
                assert(prefix@.subrange(8, 16).subrange(0, 4) =~= prefix@.subrange(8, 12));
                assert(prefix@.subrange(8, 16).subrange(4, 8) =~= prefix@.subrange(12, 16));
            }
            assert(high * 0x1_0000_0000 + low <= u64::MAX) by (nonlinear_arith)
                requires
                    high < 0x1_0000_0000,
                    low < 0x1_0000_0000,
            ;
            header = 16;
            declared = Some(high * 0x1_0000_0000 + low);
        } else {
            header = 8;
            declared = Some(size32);
        }
        let minimum = header + 8;
        if let Some(size) = declared {
            if size < minimum as u64 {
                return None;
            }
        }
        let available_end: usize = match declared {
            Some(size) => if size <= usize::MAX as u64 && (size as usize) < prefix.len() {
                size as usize
            } else {
                prefix.len()
            },
            None => prefix.len(),
        };
        if available_end < minimum {
            return None;
        }
        let compatible_len = (available_end - minimum) / 4 * 4;
        Some(FileTypeBrands { major_start: header, compatible_end: minimum + compatible_len })
    }

    /// True when the major brand or a whole compatible brand equals `expected`.
    pub fn has(self, prefix: &[u8], expected: [u8; 4]) -> (r: bool)
        requires
            self.major_start + 8 <= self.compatible_end <= prefix.len(),
            (self.compatible_end - self.major_start - 8) % 4 == 0,
        ensures
            r == has_brand(prefix@, self.major_start as int, self.compatible_end as int, expected@),
    {
        let h = self.major_start;
        let ghost e = expected@;
        if prefix[h] == expected[0] && prefix[h + 1] == expected[1] && prefix[h + 2] == expected[2]
            && prefix[h + 3] == expected[3] {
            assert(prefix@.subrange(h as int, h + 4) =~= e);
            return true;
        }
        assert(prefix@.subrange(h as int, h + 4) != e) by {
            let s = prefix@.subrange(h as int, h + 4);
            if s == e {
                assert(s[0] == prefix@[h as int] && s[1] == prefix@[h + 1] && s[2] == prefix@[h + 2]
                    && s[3] == prefix@[h + 3]);
            }
        }
        let mut at = h + 8;
        while at < self.compatible_end
            invariant
                h + 8 <= at <= self.compatible_end <= prefix.len(),
                (self.compatible_end - at) % 4 == 0,
                (at - h - 8) % 4 == 0,
                e == expected@,
                h == self.major_start,
                forall|k: int|
                    0 <= k && h + 8 + 4 * k + 4 <= at ==> #[trigger] prefix@.subrange(
                        h + 8 + 4 * k,
                        h + 8 + 4 * k + 4,
                    ) != e,
            decreases self.compatible_end - at,
        {
            let ghost k = (at - h - 8) / 4;
            assert(h + 8 + 4 * k == at);
            if prefix[at] == expected[0] && prefix[at + 1] == expected[1] && prefix[at + 2]
                == expected[2] && prefix[at + 3] == expected[3] {
                assert(prefix@.subrange(h + 8 + 4 * k, h + 8 + 4 * k + 4) =~= e);
                return true;
            }
            assert(prefix@.subrange(at as int, at + 4) != e) by {
                let s = prefix@.subrange(at as int, at + 4);
                if s == e {
                    assert(s[0] == prefix@[at as int] && s[1] == prefix@[at + 1] && s[2]
                        == prefix@[at + 2] && s[3] == prefix@[at + 3]);
                }
            }
            at = at + 4;
        }
        proof {
            assert forall|k: int|
                0 <= k && h + 8 + 4 * k + 4 <= self.compatible_end implies #[trigger] prefix@.subrange(
                h + 8 + 4 * k,
                h + 8 + 4 * k + 4,
            ) != e by {}
        }
        false
    }

    /// True when any of `expected` is one of the brands.
    pub fn contains_any(self, prefix: &[u8], expected: &[[u8; 4]]) -> (r: bool)
        requires
            self.major_start + 8 <= self.compatible_end <= prefix.len(),
            (self.compatible_end - self.major_start - 8) % 4 == 0,
        ensures
            r == has_any_brand(
                prefix@,
                self.major_start as int,
                self.compatible_end as int,
                expected@.map_values(|b: [u8; 4]| b@),
            ),
    {
        let ghost brands = expected@.map_values(|b: [u8; 4]| b@);
        let mut i: usize = 0;
        while i < expected.len()
            invariant
                i <= expected.len(),
                self.major_start + 8 <= self.compatible_end <= prefix.len(),
                (self.compatible_end - self.major_start - 8) % 4 == 0,
                brands == expected@.map_values(|b: [u8; 4]| b@),
                forall|j: int|
                    0 <= j < i ==> !has_brand(
                        prefix@,
                        self.major_start as int,
                        self.compatible_end as int,
                        #[trigger] brands[j],
                    ),
            decreases expected.len() - i,
        {
            if self.has(prefix, expected[i]) {
                assert(brands[i as int] == expected@[i as int]@);
                return true;
            }
            i = i + 1;
        }
        false
    }
}

/// Classifies an ISO BMFF file from its first, bounded `ftyp` box.
///
/// A declared box may extend beyond the signature window; only complete four-byte brands
/// already present in the window are read. Structurally invalid or unknown `ftyp` boxes are
/// not treated as a registered format.
pub fn classify_file_type(prefix: &[u8]) -> (r: Option<IsoBmffKind>)
    ensures
        r == file_type_of(prefix@),
{
    let brands = match FileTypeBrands::parse(prefix) {
        None => return None,
        Some(b) => b,
    };
    let avif: [[u8; 4]; 2] = [[0x61, 0x76, 0x69, 0x66], [0x61, 0x76, 0x69, 0x73]];
    let heic: [[u8; 4]; 8] = [
        [0x68, 0x65, 0x69, 0x63],
        [0x68, 0x65, 0x69, 0x78],
        [0x68, 0x65, 0x76, 0x63],
        [0x68, 0x65, 0x76, 0x78],
        [0x68, 0x65, 0x69, 0x6d],
        [0x68, 0x65, 0x69, 0x73],
        [0x68, 0x65, 0x76, 0x6d],
        [0x68, 0x65, 0x76, 0x73],
    ];
    let heif: [[u8; 4]; 3] = [[0x68, 0x65, 0x69, 0x66], [0x6d, 0x69, 0x66, 0x31], [0x6d, 0x73, 0x66, 0x31]];
    let mov: [[u8; 4]; 1] = [[0x71, 0x74, 0x20, 0x20]];
    let mp4: [[u8; 4]; 12] = [
        [0x69, 0x73, 0x6f, 0x6d],
        [0x69, 0x73, 0x6f, 0x32],
        [0x69, 0x73, 0x6f, 0x33],
        [0x69, 0x73, 0x6f, 0x34],
        [0x69, 0x73, 0x6f, 0x35],
        [0x69, 0x73, 0x6f, 0x36],
        [0x61, 0x76, 0x63, 0x31],
        [0x64, 0x61, 0x73, 0x68],
        [0x4d, 0x34, 0x56, 0x20],
        [0x6d, 0x70, 0x34, 0x31],
        [0x6d, 0x70, 0x34, 0x32],
        [0x6d, 0x70, 0x37, 0x31],
    ];
    proof {
        assert(avif@.map_values(|b: [u8; 4]| b@) =~= avif_brands()) by {
            assert forall|i: int| 0 <= i < avif@.len() implies #[trigger] avif@[i]@ =~= avif_brands()[i] by {}
        }
        assert(heic@.map_values(|b: [u8; 4]| b@) =~= heic_brands()) by {
            assert forall|i: int| 0 <= i < heic@.len() implies #[trigger] heic@[i]@ =~= heic_brands()[i] by {}
        }
        assert(heif@.map_values(|b: [u8; 4]| b@) =~= heif_brands()) by {
            assert forall|i: int| 0 <= i < heif@.len() implies #[trigger] heif@[i]@ =~= heif_brands()[i] by {}
        }
        assert(mov@.map_values(|b: [u8; 4]| b@) =~= mov_brands()) by {
            assert forall|i: int| 0 <= i < mov@.len() implies #[trigger] mov@[i]@ =~= mov_brands()[i] by {}
        }
        assert(mp4@.map_values(|b: [u8; 4]| b@) =~= mp4_brands()) by {
            assert forall|i: int| 0 <= i < mp4@.len() implies #[trigger] mp4@[i]@ =~= mp4_brands()[i] by {}
        }
    }
    if brands.contains_any(prefix, avif.as_slice()) {
        Some(IsoBmffKind::Avif)
    } else if brands.contains_any(prefix, heic.as_slice()) {
        Some(IsoBmffKind::Heic)
    } else if brands.contains_any(prefix, heif.as_slice()) {
        Some(IsoBmffKind::Heif)
    } else if brands.contains_any(prefix, mov.as_slice()) {
        Some(IsoBmffKind::Mov)
    } else if brands.contains_any(prefix, mp4.as_slice()) {
        Some(IsoBmffKind::Mp4)
    } else {
        None
    }
}

} // verus!
