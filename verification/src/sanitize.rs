use vstd::prelude::*;

use crate::error::SpoutError;

verus! {

/// What happened to the input's metadata.
#[derive(Debug, Clone, Copy, PartialEq, Eq)]
pub enum SanitizeStatus {
    /// A known format whose metadata was removed.
    Cleaned(&'static str),
    /// A known format that held no metadata: the bytes are unchanged.
    Kept(&'static str),
    /// Not a format that is understood: the bytes are unchanged.
    Unknown,
    /// Stripping was switched off: the bytes are unchanged.
    Disabled,
}

/// The bytes to upload and how they were obtained.
#[derive(Debug)]
pub struct Sanitized {
    pub bytes: Vec<u8>,
    pub status: SanitizeStatus,
}

// ---------------------------------------------------------------------------
// Byte-level specifications
// ---------------------------------------------------------------------------

/// The big-endian value of the four bytes starting at `i`.
pub open spec fn be_u32_at(b: Seq<u8>, i: int) -> int {
    b[i] * 16777216 + b[i + 1] * 65536 + b[i + 2] * 256 + b[i + 3]
}

/// The little-endian value of the four bytes starting at `i`.
pub open spec fn le_u32_at(b: Seq<u8>, i: int) -> int {
    b[i] + b[i + 1] * 256 + b[i + 2] * 65536 + b[i + 3] * 16777216
}

/// The big-endian value of the two bytes starting at `i`.
pub open spec fn be_u16_at(b: Seq<u8>, i: int) -> int {
    b[i] * 256 + b[i + 1]
}

/// `a` in front of the result `o`, if there is one.
pub open spec fn opt_prepend(a: Seq<u8>, o: Option<Seq<u8>>) -> Option<Seq<u8>> {
    match o {
        Some(r) => Some(a + r),
        None => None,
    }
}

/// The contents of an optional byte vector.
pub open spec fn opt_bytes(o: Option<Vec<u8>>) -> Option<Seq<u8>> {
    match o {
        Some(v) => Some(v@),
        None => None,
    }
}

pub proof fn lemma_opt_prepend_assoc(a: Seq<u8>, k: Seq<u8>, o: Option<Seq<u8>>)
    ensures
        opt_prepend(a, opt_prepend(k, o)) == opt_prepend(a + k, o),
{
    if let Some(r) = o {
        assert(a + (k + r) =~= (a + k) + r);
    }
}

// ---------------------------------------------------------------------------
// Executable byte helpers
// ---------------------------------------------------------------------------

/// Appends `src[from..to]` to `out`.
fn push_range(out: &mut Vec<u8>, src: &[u8], from: usize, to: usize)
    requires
        from <= to <= src@.len(),
    ensures
        final(out)@ == old(out)@ + src@.subrange(from as int, to as int),
{
    let mut i = from;
    while i < to
        invariant
            from <= i <= to,
            to <= src@.len(),
            out@ == old(out)@ + src@.subrange(from as int, i as int),
        decreases to - i,
    {
        assert(src@.subrange(from as int, i + 1) =~= src@.subrange(from as int, i as int).push(
            src@[i as int],
        ));
        out.push(src[i]);
        i += 1;
    }
}

/// Whether the four bytes at `pos` are `t0 t1 t2 t3`.
fn tag_at(bytes: &[u8], pos: usize, t0: u8, t1: u8, t2: u8, t3: u8) -> (r: bool)
    requires
        pos + 4 <= bytes@.len(),
    ensures
        r == (bytes@.subrange(pos as int, pos + 4) == seq![t0, t1, t2, t3]),
{
    let r = bytes[pos] == t0 && bytes[pos + 1] == t1 && bytes[pos + 2] == t2 && bytes[pos + 3]
        == t3;
    proof {
        let s = bytes@.subrange(pos as int, pos + 4);
        if r {
            assert(s =~= seq![t0, t1, t2, t3]);
        } else if s == seq![t0, t1, t2, t3] {
            assert(s[0] == t0 && s[1] == t1 && s[2] == t2 && s[3] == t3);
        }
    }
    r
}

fn read_be_u32(bytes: &[u8], pos: usize) -> (v: u64)
    requires
        pos + 4 <= bytes@.len(),
    ensures
        v == be_u32_at(bytes@, pos as int),
        v < 4294967296,
{
    (bytes[pos] as u64) * 16777216 + (bytes[pos + 1] as u64) * 65536 + (bytes[pos + 2] as u64)
        * 256 + (bytes[pos + 3] as u64)
}

fn read_le_u32(bytes: &[u8], pos: usize) -> (v: u64)
    requires
        pos + 4 <= bytes@.len(),
    ensures
        v == le_u32_at(bytes@, pos as int),
        v < 4294967296,
{
    (bytes[pos] as u64) + (bytes[pos + 1] as u64) * 256 + (bytes[pos + 2] as u64) * 65536
        + (bytes[pos + 3] as u64) * 16777216
}

fn read_be_u16(bytes: &[u8], pos: usize) -> (v: u64)
    requires
        pos + 2 <= bytes@.len(),
    ensures
        v == be_u16_at(bytes@, pos as int),
        v < 65536,
{
    (bytes[pos] as u64) * 256 + (bytes[pos + 1] as u64)
}

// ---------------------------------------------------------------------------
// PNG
// ---------------------------------------------------------------------------

pub open spec fn png_signature() -> Seq<u8> {
    seq![0x89u8, 0x50, 0x4E, 0x47, 0x0D, 0x0A, 0x1A, 0x0A]
}

pub open spec fn spec_is_png(b: Seq<u8>) -> bool {
    b.len() >= 8 && b.subrange(0, 8) == png_signature()
}

/// The chunk types that carry metadata: EXIF, text, colour profile, time.
pub open spec fn png_drops_chunk(kind: Seq<u8>) -> bool {
    ||| kind == seq![0x65u8, 0x58, 0x49, 0x66]
    ||| kind == seq![0x74u8, 0x45, 0x58, 0x74]
    ||| kind == seq![0x7Au8, 0x54, 0x58, 0x74]
    ||| kind == seq![0x69u8, 0x54, 0x58, 0x74]
    ||| kind == seq![0x69u8, 0x43, 0x43, 0x50]
    ||| kind == seq![0x74u8, 0x49, 0x4D, 0x45]
}

pub open spec fn png_iend() -> Seq<u8> {
    seq![0x49u8, 0x45, 0x4E, 0x44]
}

/// The chunks of a PNG stream from offset `pos` on, metadata chunks left out,
/// up to the IEND chunk, which is kept with everything that follows it.
/// `None` where a chunk overruns the input or no IEND chunk is reached.
pub open spec fn png_chunks_from(b: Seq<u8>, pos: int) -> Option<Seq<u8>>
    decreases b.len() - pos,
{
    if 0 <= pos && pos + 12 <= b.len() {
        let end = pos + 12 + be_u32_at(b, pos);
        if end > b.len() {
            None
        } else {
            let kind = b.subrange(pos + 4, pos + 8);
            let kept = if png_drops_chunk(kind) {
                Seq::empty()
            } else {
                b.subrange(pos, end)
            };
            if kind == png_iend() {
                Some(kept + b.subrange(end, b.len() as int))
            } else {
                opt_prepend(kept, png_chunks_from(b, end))
            }
        }
    } else {
        None
    }
}

/// A PNG stream with its metadata chunks removed.
pub open spec fn spec_sanitize_png(b: Seq<u8>) -> Option<Seq<u8>> {
    opt_prepend(png_signature(), png_chunks_from(b, 8))
}

fn is_png(bytes: &[u8]) -> (r: bool)
    ensures
        r == spec_is_png(bytes@),
{
    if bytes.len() < 8 {
        return false;
    }
    let a = tag_at(bytes, 0, 0x89, 0x50, 0x4E, 0x47);
    let b = tag_at(bytes, 4, 0x0D, 0x0A, 0x1A, 0x0A);
    proof {
        let sig = png_signature();
        assert(sig.subrange(0, 4) =~= seq![0x89u8, 0x50, 0x4E, 0x47]);
        assert(sig.subrange(4, 8) =~= seq![0x0Du8, 0x0A, 0x1A, 0x0A]);
        assert(bytes@.subrange(0, 8) =~= bytes@.subrange(0, 4) + bytes@.subrange(4, 8));
        assert(sig =~= sig.subrange(0, 4) + sig.subrange(4, 8));
        if bytes@.subrange(0, 8) == sig {
            assert(bytes@.subrange(0, 4) =~= bytes@.subrange(0, 8).subrange(0, 4));
            assert(bytes@.subrange(4, 8) =~= bytes@.subrange(0, 8).subrange(4, 8));
        }
    }
    a && b
}

#[verifier::spinoff_prover]
fn sanitize_png(bytes: &[u8]) -> (res: Option<Vec<u8>>)
    ensures
        opt_bytes(res) == spec_sanitize_png(bytes@),
        res matches Some(v) ==> v@.len() <= bytes@.len(),
{
    proof {
        if spec_sanitize_png(bytes@) is Some {
            lemma_png_strip_idempotent(bytes@);
        }
    }
    if bytes.len() < 8 {
        return None;
    }
    let mut out: Vec<u8> = Vec::with_capacity(bytes.len());
    out.push(0x89);
    out.push(0x50);
    out.push(0x4E);
    out.push(0x47);
    out.push(0x0D);
    out.push(0x0A);
    out.push(0x1A);
    out.push(0x0A);
    assert(out@ =~= png_signature());
    let mut pos: usize = 8;
    while pos <= bytes.len() && bytes.len() - pos >= 12
        invariant
            8 <= pos <= bytes@.len(),
            spec_sanitize_png(bytes@) is Some ==> spec_sanitize_png(bytes@)->0.len() <= bytes@.len(),
            spec_sanitize_png(bytes@) == opt_prepend(out@, png_chunks_from(bytes@, pos as int)),
        decreases bytes@.len() - pos,
    {
        let length = read_be_u32(bytes, pos);
        if length > (bytes.len() - pos - 12) as u64 {
            return None;
        }
        let end = pos + 12 + length as usize;
        let drop = tag_at(bytes, pos + 4, 0x65, 0x58, 0x49, 0x66) || tag_at(
            bytes,
            pos + 4,
            0x74,
            0x45,
            0x58,
            0x74,
        ) || tag_at(bytes, pos + 4, 0x7A, 0x54, 0x58, 0x74) || tag_at(
            bytes,
            pos + 4,
            0x69,
            0x54,
            0x58,
            0x74,
        ) || tag_at(bytes, pos + 4, 0x69, 0x43, 0x43, 0x50) || tag_at(
            bytes,
            pos + 4,
            0x74,
            0x49,
            0x4D,
            0x45,
        );
        let is_end = tag_at(bytes, pos + 4, 0x49, 0x45, 0x4E, 0x44);
        let ghost old_out = out@;
        let ghost kept = if drop {
            Seq::<u8>::empty()
        } else {
            bytes@.subrange(pos as int, end as int)
        };
        if !drop {
            push_range(&mut out, bytes, pos, end);
        } else {
            proof {
                assert(out@ + kept =~= out@);
            }
        }
        assert(out@ == old_out + kept);
        pos = end;
        if is_end {
            push_range(&mut out, bytes, pos, bytes.len());
            assert(out@ =~= old_out + (kept + bytes@.subrange(end as int, bytes@.len() as int)));
            return Some(out);
        }
        proof {
            lemma_opt_prepend_assoc(old_out, kept, png_chunks_from(bytes@, end as int));
        }
    }
    None
}


// ---------------------------------------------------------------------------
// JPEG
// ---------------------------------------------------------------------------

pub open spec fn spec_is_jpeg(b: Seq<u8>) -> bool {
    b.len() >= 4 && b[0] == 0xFF && b[1] == 0xD8
}

/// The first offset at or after `i` that does not hold a fill byte (0xFF).
pub open spec fn skip_fill(b: Seq<u8>, i: int) -> int
    decreases b.len() - i,
{
    if 0 <= i < b.len() && b[i] == 0xFF {
        skip_fill(b, i + 1)
    } else {
        i
    }
}

pub proof fn lemma_skip_fill(b: Seq<u8>, i: int)
    ensures
        i <= skip_fill(b, i),
        0 <= i <= b.len() ==> skip_fill(b, i) <= b.len(),
    decreases b.len() - i,
{
    if 0 <= i < b.len() && b[i] == 0xFF {
        lemma_skip_fill(b, i + 1);
    }
}

/// Markers that stand alone, without a length and payload.
pub open spec fn jpeg_standalone(m: u8) -> bool {
    m == 0x01 || (0xD0 <= m && m <= 0xD7)
}

/// "ICC_PROFILE" followed by a zero byte.
pub open spec fn icc_profile_tag() -> Seq<u8> {
    seq![0x49u8, 0x43, 0x43, 0x5F, 0x50, 0x52, 0x4F, 0x46, 0x49, 0x4C, 0x45, 0x00]
}

/// Segments that carry metadata: EXIF/XMP (APP1), IPTC (APP13), comments,
/// and ICC colour profiles (APP2 whose payload starts with the ICC tag).
pub open spec fn jpeg_drops_segment(m: u8, payload: Seq<u8>) -> bool {
    ||| m == 0xE1
    ||| m == 0xED
    ||| m == 0xFE
    ||| (m == 0xE2 && payload.len() >= 12 && payload.subrange(0, 12) == icc_profile_tag())
}

/// The segments of a JPEG stream from offset `pos` on, metadata segments left
/// out, up to the end-of-image or start-of-scan marker, which is kept with
/// everything that follows it. `None` where the stream is malformed.
pub open spec fn jpeg_segments_from(b: Seq<u8>, pos: int) -> Option<Seq<u8>>
    decreases b.len() - pos,
{
    if 0 <= pos < b.len() {
        if b[pos] != 0xFF {
            None
        } else {
            let p = skip_fill(b, pos + 1);
            proof {
                lemma_skip_fill(b, pos + 1);
            }
            if p >= b.len() {
                None
            } else {
                let m = b[p];
                let q = p + 1;
                if m == 0xD9 {
                    Some(b.subrange(pos, b.len() as int))
                } else if jpeg_standalone(m) {
                    opt_prepend(b.subrange(pos, q), jpeg_segments_from(b, q))
                } else if q + 2 > b.len() {
                    None
                } else {
                    let seg = be_u16_at(b, q);
                    if seg < 2 {
                        None
                    } else if q + seg > b.len() {
                        None
                    } else if m == 0xDA {
                        Some(b.subrange(pos, b.len() as int))
                    } else {
                        let end = q + seg;
                        let kept = if jpeg_drops_segment(m, b.subrange(q + 2, end)) {
                            Seq::empty()
                        } else {
                            b.subrange(pos, end)
                        };
                        opt_prepend(kept, jpeg_segments_from(b, end))
                    }
                }
            }
        }
    } else {
        None
    }
}

/// A JPEG stream with its metadata segments removed.
pub open spec fn spec_sanitize_jpeg(b: Seq<u8>) -> Option<Seq<u8>> {
    opt_prepend(b.subrange(0, 2), jpeg_segments_from(b, 2))
}

fn is_jpeg(bytes: &[u8]) -> (r: bool)
    ensures
        r == spec_is_jpeg(bytes@),
{
    bytes.len() >= 4 && bytes[0] == 0xFF && bytes[1] == 0xD8
}

fn should_strip_jpeg_segment(marker: u8, payload: &[u8]) -> (r: bool)
    ensures
        r == jpeg_drops_segment(marker, payload@),
{
    let icc = payload.len() >= 12 && tag_at(payload, 0, 0x49, 0x43, 0x43, 0x5F) && tag_at(
        payload,
        4,
        0x50,
        0x52,
        0x4F,
        0x46,
    ) && tag_at(payload, 8, 0x49, 0x4C, 0x45, 0x00);
    proof {
        if payload@.len() >= 12 {
            let p = payload@;
            let t = icc_profile_tag();
            assert(t.subrange(0, 4) =~= seq![0x49u8, 0x43, 0x43, 0x5F]);
            assert(t.subrange(4, 8) =~= seq![0x50u8, 0x52, 0x4F, 0x46]);
            assert(t.subrange(8, 12) =~= seq![0x49u8, 0x4C, 0x45, 0x00]);
            assert(t =~= t.subrange(0, 4) + t.subrange(4, 8) + t.subrange(8, 12));
            assert(p.subrange(0, 12) =~= p.subrange(0, 4) + p.subrange(4, 8) + p.subrange(8, 12));
            if p.subrange(0, 12) == t {
                assert(p.subrange(0, 4) =~= p.subrange(0, 12).subrange(0, 4));
                assert(p.subrange(4, 8) =~= p.subrange(0, 12).subrange(4, 8));
                assert(p.subrange(8, 12) =~= p.subrange(0, 12).subrange(8, 12));
            }
        }
    }
    marker == 0xE1 || marker == 0xED || marker == 0xFE || (marker == 0xE2 && icc)
}

fn is_standalone_jpeg_marker(marker: u8) -> (r: bool)
    ensures
        r == jpeg_standalone(marker),
{
    marker == 0x01 || (0xD0 <= marker && marker <= 0xD7)
}

#[verifier::spinoff_prover]
fn sanitize_jpeg(bytes: &[u8]) -> (res: Option<Vec<u8>>)
    requires
        bytes@.len() >= 2,
    ensures
        opt_bytes(res) == spec_sanitize_jpeg(bytes@),
        res matches Some(v) ==> v@.len() <= bytes@.len(),
{
    proof {
        if spec_sanitize_jpeg(bytes@) is Some {
            lemma_jpeg_strip_idempotent(bytes@);
        }
    }
    let mut out: Vec<u8> = Vec::with_capacity(bytes.len());
    push_range(&mut out, bytes, 0, 2);
    let mut pos: usize = 2;
    while pos < bytes.len()
        invariant
            2 <= pos <= bytes@.len(),
            spec_sanitize_jpeg(bytes@) is Some ==> spec_sanitize_jpeg(bytes@)->0.len()
                <= bytes@.len(),
            spec_sanitize_jpeg(bytes@) == opt_prepend(out@, jpeg_segments_from(bytes@, pos as int)),
        decreases bytes@.len() - pos,
    {
        let marker_start = pos;
        if bytes[pos] != 0xFF {
            return None;
        }
        pos += 1;
        while pos < bytes.len() && bytes[pos] == 0xFF
            invariant
                marker_start < pos <= bytes@.len(),
                skip_fill(bytes@, marker_start + 1) == skip_fill(bytes@, pos as int),
            decreases bytes@.len() - pos,
        {
            pos += 1;
        }
        if pos >= bytes.len() {
            return None;
        }
        let marker = bytes[pos];
        pos += 1;
        let ghost old_out = out@;
        if marker == 0xD9 {
            push_range(&mut out, bytes, marker_start, bytes.len());
            return Some(out);
        }
        if is_standalone_jpeg_marker(marker) {
            push_range(&mut out, bytes, marker_start, pos);
            proof {
                lemma_opt_prepend_assoc(
                    old_out,
                    bytes@.subrange(marker_start as int, pos as int),
                    jpeg_segments_from(bytes@, pos as int),
                );
            }
            continue ;
        }
        if bytes.len() - pos < 2 {
            return None;
        }
        let segment_len = read_be_u16(bytes, pos) as usize;
        if segment_len < 2 {
            return None;
        }
        if segment_len > bytes.len() - pos {
            return None;
        }
        let end = pos + segment_len;
        if marker == 0xDA {
            push_range(&mut out, bytes, marker_start, bytes.len());
            return Some(out);
        }
        let drop = should_strip_jpeg_segment(marker, &bytes[pos + 2..end]);
        let ghost kept = if drop {
            Seq::<u8>::empty()
        } else {
            bytes@.subrange(marker_start as int, end as int)
        };
        if !drop {
            push_range(&mut out, bytes, marker_start, end);
        } else {
            proof {
                assert(out@ + kept =~= out@);
            }
        }
        proof {
            lemma_opt_prepend_assoc(old_out, kept, jpeg_segments_from(bytes@, end as int));
        }
        pos = end;
    }
    None
}


// ---------------------------------------------------------------------------
// WebP
// ---------------------------------------------------------------------------

pub open spec fn riff_tag() -> Seq<u8> {
    seq![0x52u8, 0x49, 0x46, 0x46]
}

pub open spec fn webp_tag() -> Seq<u8> {
    seq![0x57u8, 0x45, 0x42, 0x50]
}

pub open spec fn vp8x_tag() -> Seq<u8> {
    seq![0x56u8, 0x50, 0x38, 0x58]
}

pub open spec fn spec_is_webp(b: Seq<u8>) -> bool {
    b.len() >= 12 && b.subrange(0, 4) == riff_tag() && b.subrange(8, 12) == webp_tag()
}

/// The chunk types that carry metadata: colour profile, EXIF, XMP.
pub open spec fn webp_drops_chunk(kind: Seq<u8>) -> bool {
    ||| kind == seq![0x49u8, 0x43, 0x43, 0x50]
    ||| kind == seq![0x45u8, 0x58, 0x49, 0x46]
    ||| kind == seq![0x58u8, 0x4D, 0x50, 0x20]
}

/// The little-endian bytes of a 32-bit value.
pub open spec fn le_u32_bytes(n: int) -> Seq<u8> {
    seq![
        (n % 256) as u8,
        ((n / 256) % 256) as u8,
        ((n / 65536) % 256) as u8,
        ((n / 16777216) % 256) as u8,
    ]
}

/// The flags that announce a colour profile, EXIF and XMP in a VP8X chunk.
pub open spec fn vp8x_metadata_flags() -> u8 {
    0x2C
}

/// `acc` in front of the kept chunks `x`; `off` is the offset, within `acc`,
/// of the flags byte of the last extended-format header kept in `acc`, and
/// the result's offset is that of the last one over both.
pub open spec fn webp_combine(acc: Seq<u8>, off: Option<int>, x: Option<(Seq<u8>, Option<int>)>) -> Option<(Seq<u8>, Option<int>)> {
    match x {
        Some((rest, o)) => Some(
            (
                acc + rest,
                match o {
                    Some(k) => Some(acc.len() + k),
                    None => off,
                },
            ),
        ),
        None => None,
    }
}

/// The chunks of a WebP stream from offset `pos` on, metadata chunks left out,
/// with the offset of the flags byte of the last extended-format header kept.
/// `None` where a chunk overruns the input or the chunks do not end exactly
/// at the end of the input.
pub open spec fn webp_chunks_from(b: Seq<u8>, pos: int) -> Option<(Seq<u8>, Option<int>)>
    decreases b.len() - pos,
{
    if 0 <= pos && pos + 8 <= b.len() {
        let size = le_u32_at(b, pos + 4);
        let end = pos + 8 + size + size % 2;
        if end > b.len() {
            None
        } else {
            let kind = b.subrange(pos, pos + 4);
            let dropped = webp_drops_chunk(kind);
            let kept = if dropped {
                Seq::empty()
            } else {
                b.subrange(pos, end)
            };
            let here = if !dropped && kind == vp8x_tag() && size >= 10 {
                Some(8int)
            } else {
                None
            };
            webp_combine(kept, here, webp_chunks_from(b, end))
        }
    } else if pos == b.len() {
        Some((Seq::empty(), None))
    } else {
        None
    }
}

/// The kept chunks with the metadata flags of the last extended-format header
/// cleared.
pub open spec fn webp_clear_flags(body: Seq<u8>, off: Option<int>) -> Seq<u8> {
    match off {
        Some(o) => body.update(o, body[o] & !vp8x_metadata_flags()),
        None => body,
    }
}

/// A WebP stream with its metadata chunks removed, the metadata flags cleared,
/// and the RIFF size recomputed.
#[verifier::opaque]
pub open spec fn spec_sanitize_webp(b: Seq<u8>) -> Option<Seq<u8>> {
    if le_u32_at(b, 4) + 8 != b.len() {
        None
    } else {
        match webp_chunks_from(b, 12) {
            Some((body, off)) => {
                let body2 = webp_clear_flags(body, off);
                Some(riff_tag() + le_u32_bytes(body2.len() + 4int) + webp_tag() + body2)
            },
            None => None,
        }
    }
}

pub proof fn lemma_webp_combine_assoc(
    acc: Seq<u8>,
    off: Option<int>,
    kept: Seq<u8>,
    here: Option<int>,
    x: Option<(Seq<u8>, Option<int>)>,
)
    ensures
        webp_combine(acc, off, webp_combine(kept, here, x)) == webp_combine(
            acc + kept,
            match here {
                Some(h) => Some(acc.len() + h),
                None => off,
            },
            x,
        ),
{
    if let Some((rest, o)) = x {
        assert(acc + (kept + rest) =~= (acc + kept) + rest);
    }
}

fn is_webp(bytes: &[u8]) -> (r: bool)
    ensures
        r == spec_is_webp(bytes@),
{
    bytes.len() >= 12 && tag_at(bytes, 0, 0x52, 0x49, 0x46, 0x46) && tag_at(
        bytes,
        8,
        0x57,
        0x45,
        0x42,
        0x50,
    )
}

#[verifier::spinoff_prover]
fn sanitize_webp(bytes: &[u8]) -> (res: Option<Vec<u8>>)
    requires
        bytes@.len() >= 8,
    ensures
        opt_bytes(res) == spec_sanitize_webp(bytes@),
        res matches Some(v) ==> v@.len() <= bytes@.len(),
{
    reveal(spec_sanitize_webp);
    let riff_size = read_le_u32(bytes, 4);
    if riff_size + 8 != bytes.len() as u64 {
        return None;
    }
    if bytes.len() < 12 {
        return None;
    }
    let mut out: Vec<u8> = Vec::with_capacity(bytes.len());
    out.push(0x52);
    out.push(0x49);
    out.push(0x46);
    out.push(0x46);
    out.push(0);
    out.push(0);
    out.push(0);
    out.push(0);
    out.push(0x57);
    out.push(0x45);
    out.push(0x42);
    out.push(0x50);
    let ghost header = out@;
    proof {
        assert(header.subrange(0, 4) =~= riff_tag());
        assert(header.subrange(8, 12) =~= webp_tag());
        assert(header =~= header + Seq::<u8>::empty());
    }
    let mut pos: usize = 12;
    let mut vp8x_flags_offset: Option<usize> = None;
    let ghost mut acc: Seq<u8> = Seq::empty();
    while pos <= bytes.len() && bytes.len() - pos >= 8
        invariant
            12 <= pos <= bytes@.len(),
            bytes@.len() == riff_size + 8,
            header.len() == 12,
            header.subrange(0, 4) == riff_tag(),
            header.subrange(8, 12) == webp_tag(),
            out@ == header + acc,
            acc.len() <= pos - 12,
            vp8x_flags_offset matches Some(a) ==> 12 <= a < out@.len(),
            webp_chunks_from(bytes@, 12) == webp_combine(
                acc,
                match vp8x_flags_offset {
                    Some(a) => Some(a - 12),
                    None => None,
                },
                webp_chunks_from(bytes@, pos as int),
            ),
        decreases bytes@.len() - pos,
    {
        let size = read_le_u32(bytes, pos + 4);
        let padded = size + size % 2;
        if padded > (bytes.len() - pos - 8) as u64 {
            proof {
                reveal(spec_sanitize_webp);
            }
            return None;
        }
        let end = pos + 8 + padded as usize;
        let drop = tag_at(bytes, pos, 0x49, 0x43, 0x43, 0x50) || tag_at(
            bytes,
            pos,
            0x45,
            0x58,
            0x49,
            0x46,
        ) || tag_at(bytes, pos, 0x58, 0x4D, 0x50, 0x20);
        let ghost old_acc = acc;
        let ghost old_off = match vp8x_flags_offset {
            Some(a) => Some(a - 12),
            None => None::<int>,
        };
        let ghost kept = if drop {
            Seq::<u8>::empty()
        } else {
            bytes@.subrange(pos as int, end as int)
        };
        let ghost mut here: Option<int> = None;
        if !drop {
            let out_pos = out.len();
            push_range(&mut out, bytes, pos, end);
            if tag_at(bytes, pos, 0x56, 0x50, 0x38, 0x58) && size >= 10 {
                vp8x_flags_offset = Some(out_pos + 8);
                proof {
                    here = Some(8int);
                }
            }
        }
        proof {
            acc = old_acc + kept;
            assert(out@ =~= header + acc);
            lemma_webp_combine_assoc(
                old_acc,
                old_off,
                kept,
                here,
                webp_chunks_from(bytes@, end as int),
            );
        }
        pos = end;
    }
    if pos != bytes.len() {
        return None;
    }
    let ghost body = acc;
    if let Some(offset) = vp8x_flags_offset {
        let v = out[offset] & !(0x20u8 | 0x08 | 0x04);
        out.set(offset, v);
        proof {
            assert(!(0x20u8 | 0x08 | 0x04) == !vp8x_metadata_flags()) by (bit_vector);
            assert(out@ =~= header + webp_clear_flags(body, Some(offset - 12)));
        }
    }
    let ghost body2 = webp_clear_flags(
        body,
        match vp8x_flags_offset {
            Some(a) => Some(a - 12),
            None => None,
        },
    );
    assert(out@ =~= header + body2);
    let size = (out.len() - 8) as u64;
    out.set(4, (size % 256) as u8);
    out.set(5, ((size / 256) % 256) as u8);
    out.set(6, ((size / 65536) % 256) as u8);
    out.set(7, ((size / 16777216) % 256) as u8);
    proof {
        assert(header.subrange(0, 4) + le_u32_bytes(body2.len() + 4int) + header.subrange(8, 12)
            + body2 =~= out@);
        lemma_webp_strip_idempotent(bytes@);
    }
    Some(out)
}


// ---------------------------------------------------------------------------
// Dispatch
// ---------------------------------------------------------------------------

/// The image formats whose metadata can be stripped.
#[derive(Debug, Clone, Copy, PartialEq, Eq)]
pub enum MediaKind {
    Png,
    Jpeg,
    Webp,
}

/// The format the input is recognised as, first match wins.
pub open spec fn known_format(b: Seq<u8>) -> Option<MediaKind> {
    if spec_is_png(b) {
        Some(MediaKind::Png)
    } else if spec_is_jpeg(b) {
        Some(MediaKind::Jpeg)
    } else if spec_is_webp(b) {
        Some(MediaKind::Webp)
    } else {
        None
    }
}

/// How the format of an input is told: PNG by its eight-byte signature
/// `89 50 4E 47 0D 0A 1A 0A`; otherwise JPEG by at least four bytes starting
/// `FF D8`; otherwise WebP by at least twelve bytes with `RIFF` at 0 and
/// `WEBP` at 8; anything else is not recognised.
pub proof fn lemma_known_format_signatures(b: Seq<u8>)
    ensures
        (known_format(b) == Some(MediaKind::Png)) <==> (b.len() >= 8 && b[0] == 0x89 && b[1]
            == 0x50 && b[2] == 0x4E && b[3] == 0x47 && b[4] == 0x0D && b[5] == 0x0A && b[6] == 0x1A
            && b[7] == 0x0A),
        (known_format(b) == Some(MediaKind::Jpeg)) <==> (known_format(b) != Some(MediaKind::Png)
            && b.len() >= 4 && b[0] == 0xFF && b[1] == 0xD8),
        (known_format(b) == Some(MediaKind::Webp)) <==> (known_format(b) != Some(MediaKind::Png)
            && known_format(b) != Some(MediaKind::Jpeg) && b.len() >= 12 && b[0] == 0x52 && b[1]
            == 0x49 && b[2] == 0x46 && b[3] == 0x46 && b[8] == 0x57 && b[9] == 0x45 && b[10] == 0x42
            && b[11] == 0x50),
{
    if b.len() >= 8 {
        let h = b.subrange(0, 8);
        assert(h[0] == b[0] && h[1] == b[1] && h[2] == b[2] && h[3] == b[3] && h[4] == b[4] && h[5]
            == b[5] && h[6] == b[6] && h[7] == b[7]);
        if b[0] == 0x89 && b[1] == 0x50 && b[2] == 0x4E && b[3] == 0x47 && b[4] == 0x0D && b[5]
            == 0x0A && b[6] == 0x1A && b[7] == 0x0A {
            assert(h =~= png_signature());
        }
    }
    if b.len() >= 12 {
        let r = b.subrange(0, 4);
        let w = b.subrange(8, 12);
        assert(r[0] == b[0] && r[1] == b[1] && r[2] == b[2] && r[3] == b[3]);
        assert(w[0] == b[8] && w[1] == b[9] && w[2] == b[10] && w[3] == b[11]);
        if b[0] == 0x52 && b[1] == 0x49 && b[2] == 0x46 && b[3] == 0x46 {
            assert(r =~= riff_tag());
        }
        if b[8] == 0x57 && b[9] == 0x45 && b[10] == 0x42 && b[11] == 0x50 {
            assert(w =~= webp_tag());
        }
    }
}

pub open spec fn format_name(k: MediaKind) -> Seq<char> {
    match k {
        MediaKind::Png => "png"@,
        MediaKind::Jpeg => "jpeg"@,
        MediaKind::Webp => "webp"@,
    }
}

/// The input of format `k` with its metadata removed; `None` if malformed.
pub open spec fn sanitize_as(k: MediaKind, b: Seq<u8>) -> Option<Seq<u8>> {
    match k {
        MediaKind::Png => spec_sanitize_png(b),
        MediaKind::Jpeg => spec_sanitize_jpeg(b),
        MediaKind::Webp => spec_sanitize_webp(b),
    }
}

/// The outcome of stripping `b` as format `k`, reported under the name
/// `name`: the failure, or the stripped bytes marked kept or cleaned.
pub open spec fn known_outcome(k: MediaKind, name: Seq<char>, b: Seq<u8>, res: Result<Sanitized, SpoutError>) -> bool {
    match sanitize_as(k, b) {
        None => res matches Err(SpoutError::SanitizeFailed(n)) && n@ == name,
        Some(clean) => res matches Ok(s) && s.bytes@ == clean && if clean == b {
            s.status matches SanitizeStatus::Kept(n) && n@ == name
        } else {
            s.status matches SanitizeStatus::Cleaned(n) && n@ == name
        },
    }
}

fn bytes_equal(a: &[u8], b: &[u8]) -> (r: bool)
    ensures
        r == (a@ == b@),
{
    if a.len() != b.len() {
        return false;
    }
    let mut i: usize = 0;
    while i < a.len()
        invariant
            i <= a@.len(),
            a@.len() == b@.len(),
            forall|j: int| 0 <= j < i ==> a@[j] == b@[j],
        decreases a@.len() - i,
    {
        if a[i] != b[i] {
            return false;
        }
        i += 1;
    }
    assert(a@ =~= b@);
    true
}

fn sanitize_known(bytes: Vec<u8>, format: &'static str, sanitizer: MediaKind) -> (res: Result<
    Sanitized,
    SpoutError,
>)
    requires
        sanitizer == MediaKind::Jpeg ==> bytes@.len() >= 2,
        sanitizer == MediaKind::Webp ==> bytes@.len() >= 8,
    ensures
        known_outcome(sanitizer, format@, bytes@, res),
{
    let cleaned = match sanitizer {
        MediaKind::Png => sanitize_png(bytes.as_slice()),
        MediaKind::Jpeg => sanitize_jpeg(bytes.as_slice()),
        MediaKind::Webp => sanitize_webp(bytes.as_slice()),
    };
    let sanitized = match cleaned {
        Some(v) => v,
        None => return Err(SpoutError::SanitizeFailed(format)),
    };
    let status = if bytes_equal(sanitized.as_slice(), bytes.as_slice()) {
        SanitizeStatus::Kept(format)
    } else {
        SanitizeStatus::Cleaned(format)
    };
    Ok(Sanitized { bytes: sanitized, status })
}

/// Strips embedded metadata from PNG, JPEG and WebP input when `enabled`.
/// Other input, and any input when stripping is off, passes unchanged; a
/// recognised input that is malformed is an error.
pub fn sanitize_media(bytes: Vec<u8>, enabled: bool) -> (res: Result<Sanitized, SpoutError>)
    ensures
        !enabled ==> (res matches Ok(s) && s.bytes@ == bytes@ && s.status
            == SanitizeStatus::Disabled),
        enabled && known_format(bytes@) is None ==> (res matches Ok(s) && s.bytes@ == bytes@
            && s.status == SanitizeStatus::Unknown),
        enabled && known_format(bytes@) is Some ==> known_outcome(
            known_format(bytes@)->0,
            format_name(known_format(bytes@)->0),
            bytes@,
            res,
        ),
{
    if !enabled {
        return Ok(Sanitized { bytes, status: SanitizeStatus::Disabled });
    }
    if is_png(bytes.as_slice()) {
        return sanitize_known(bytes, "png", MediaKind::Png);
    }
    if is_jpeg(bytes.as_slice()) {
        return sanitize_known(bytes, "jpeg", MediaKind::Jpeg);
    }
    if is_webp(bytes.as_slice()) {
        return sanitize_known(bytes, "webp", MediaKind::Webp);
    }
    Ok(Sanitized { bytes, status: SanitizeStatus::Unknown })
}


// ---------------------------------------------------------------------------
// Laws: a stripped stream holds nothing more to strip
// ---------------------------------------------------------------------------

#[verifier::spinoff_prover]
proof fn lemma_png_chunks_reparse(b: Seq<u8>, pos: int, p: Seq<u8>)
    requires
        png_chunks_from(b, pos) is Some,
    ensures
        png_chunks_from(p + png_chunks_from(b, pos)->0, p.len() as int) == png_chunks_from(b, pos),
        png_chunks_from(b, pos)->0.len() >= 12,
    decreases b.len() - pos,
{
    let r = png_chunks_from(b, pos)->0;
    let c = p + r;
    let q = p.len() as int;
    let end = pos + 12 + be_u32_at(b, pos);
    let kind = b.subrange(pos + 4, pos + 8);
    let chunk = b.subrange(pos, end);
    let kept = if png_drops_chunk(kind) {
        Seq::<u8>::empty()
    } else {
        chunk
    };
    if kind == png_iend() {
        assert(!png_drops_chunk(kind));
        let tail = b.subrange(end, b.len() as int);
        assert(r == chunk + tail);
        assert(c.subrange(q, q + (end - pos)) =~= chunk);
        assert(c[q] == b[pos] && c[q + 1] == b[pos + 1] && c[q + 2] == b[pos + 2] && c[q + 3]
            == b[pos + 3]);
        assert(c.subrange(q + 4, q + 8) =~= kind);
        assert(c.subrange(q + (end - pos), c.len() as int) =~= tail);
        assert(c.subrange(q, q + (end - pos)) + c.subrange(q + (end - pos), c.len() as int)
            =~= r);
    } else {
        let rest = png_chunks_from(b, end)->0;
        assert(r == kept + rest);
        if png_drops_chunk(kind) {
            assert(kept + rest =~= rest);
            lemma_png_chunks_reparse(b, end, p);
        } else {
            let p2 = p + chunk;
            lemma_png_chunks_reparse(b, end, p2);
            assert(p2 + rest =~= c);
            assert(c.subrange(q, q + (end - pos)) =~= chunk);
            assert(c[q] == b[pos] && c[q + 1] == b[pos + 1] && c[q + 2] == b[pos + 2] && c[q + 3]
                == b[pos + 3]);
            assert(c.subrange(q + 4, q + 8) =~= kind);
        }
    }
}

/// Stripping a PNG stream twice changes nothing the second time: the output
/// is again a PNG stream, and it holds no metadata chunk.
pub proof fn lemma_png_strip_idempotent(b: Seq<u8>)
    requires
        spec_sanitize_png(b) is Some,
    ensures
        spec_is_png(spec_sanitize_png(b)->0),
        spec_sanitize_png(spec_sanitize_png(b)->0) == spec_sanitize_png(b),
        spec_sanitize_png(b)->0.len() <= b.len(),
{
    let r = png_chunks_from(b, 8)->0;
    let c = png_signature() + r;
    lemma_png_chunks_reparse(b, 8, png_signature());
    assert(c.subrange(0, 8) =~= png_signature());
    lemma_png_chunks_shrink(b, 8);
}

/// The chunk types of a PNG stream from offset `pos` on, in order, up to and
/// including the first IEND chunk, as far as whole chunks are found.
pub open spec fn png_chunk_types(b: Seq<u8>, pos: int) -> Seq<Seq<u8>>
    decreases b.len() - pos,
{
    if 0 <= pos && pos + 12 <= b.len() && pos + 12 + be_u32_at(b, pos) <= b.len() {
        let kind = b.subrange(pos + 4, pos + 8);
        if kind == seq![0x49u8, 0x45, 0x4E, 0x44] {
            seq![kind]
        } else {
            seq![kind] + png_chunk_types(b, pos + 12 + be_u32_at(b, pos))
        }
    } else {
        Seq::empty()
    }
}

/// `ts` without the entries that `dropped` picks out, the others in order.
pub open spec fn types_without<A>(ts: Seq<A>, dropped: spec_fn(A) -> bool) -> Seq<A>
    decreases ts.len(),
{
    if ts.len() == 0 {
        Seq::empty()
    } else if dropped(ts[0]) {
        types_without(ts.drop_first(), dropped)
    } else {
        seq![ts[0]] + types_without(ts.drop_first(), dropped)
    }
}

proof fn lemma_types_without_props<A>(ts: Seq<A>, dropped: spec_fn(A) -> bool)
    ensures
        types_without(ts, dropped).len() <= ts.len(),
        forall|i: int|
            0 <= i < types_without(ts, dropped).len() ==> !dropped(
                #[trigger] types_without(ts, dropped)[i],
            ),
        (exists|i: int| 0 <= i < ts.len() && dropped(#[trigger] ts[i])) ==> types_without(
            ts,
            dropped,
        ).len() < ts.len(),
    decreases ts.len(),
{
    if ts.len() > 0 {
        let rest = ts.drop_first();
        lemma_types_without_props(rest, dropped);
        if exists|i: int| 0 <= i < ts.len() && dropped(#[trigger] ts[i]) {
            let i = choose|i: int| 0 <= i < ts.len() && dropped(#[trigger] ts[i]);
            if i > 0 {
                assert(rest[i - 1] == ts[i]);
            }
        }
        if !dropped(ts[0]) {
            let w = types_without(ts, dropped);
            assert forall|i: int| 0 <= i < w.len() implies !dropped(#[trigger] w[i]) by {
                if i > 0 {
                    assert(w[i] == types_without(rest, dropped)[i - 1]);
                }
            }
        }
    }
}

proof fn lemma_png_types_kept(b: Seq<u8>, pos: int, p: Seq<u8>, dropped: spec_fn(Seq<u8>) -> bool)
    requires
        png_chunks_from(b, pos) is Some,
        forall|k: Seq<u8>| #[trigger] dropped(k) == png_drops_chunk(k),
    ensures
        png_chunk_types(p + png_chunks_from(b, pos)->0, p.len() as int) == types_without(
            png_chunk_types(b, pos),
            dropped,
        ),
    decreases b.len() - pos,
{
    let r = png_chunks_from(b, pos)->0;
    let c = p + r;
    let q = p.len() as int;
    let end = pos + 12 + be_u32_at(b, pos);
    let kind = b.subrange(pos + 4, pos + 8);
    let chunk = b.subrange(pos, end);
    let ts = png_chunk_types(b, pos);
    assert(ts[0] == kind);
    if kind == png_iend() {
        assert(!dropped(kind));
        let tail = b.subrange(end, b.len() as int);
        assert(r == chunk + tail);
        assert(c[q] == b[pos] && c[q + 1] == b[pos + 1] && c[q + 2] == b[pos + 2] && c[q + 3]
            == b[pos + 3]);
        assert(c.subrange(q + 4, q + 8) =~= kind);
        assert(ts =~= seq![kind]);
        assert(ts.drop_first() =~= Seq::<Seq<u8>>::empty());
        assert(types_without(ts.drop_first(), dropped) =~= Seq::<Seq<u8>>::empty());
        assert(png_chunk_types(c, q) =~= seq![kind]);
    } else {
        let rest = png_chunks_from(b, end)->0;
        assert(ts.drop_first() =~= png_chunk_types(b, end));
        if png_drops_chunk(kind) {
            assert(r =~= rest);
            lemma_png_types_kept(b, end, p, dropped);
        } else {
            let p2 = p + chunk;
            lemma_png_types_kept(b, end, p2, dropped);
            assert(r == chunk + rest);
            assert(p2 + rest =~= c);
            assert(c.subrange(q, q + (end - pos)) =~= chunk);
            assert(c[q] == b[pos] && c[q + 1] == b[pos + 1] && c[q + 2] == b[pos + 2] && c[q + 3]
                == b[pos + 3]);
            assert(c.subrange(q + 4, q + 8) =~= kind);
            assert(png_chunk_types(c, q) =~= seq![kind] + png_chunk_types(c, p2.len() as int));
        }
    }
}

proof fn lemma_png_chunks_unchanged(b: Seq<u8>, pos: int, dropped: spec_fn(Seq<u8>) -> bool)
    requires
        png_chunks_from(b, pos) is Some,
        forall|k: Seq<u8>| #[trigger] dropped(k) == png_drops_chunk(k),
        forall|i: int|
            0 <= i < png_chunk_types(b, pos).len() ==> !dropped(#[trigger] png_chunk_types(b, pos)[i]),
    ensures
        png_chunks_from(b, pos)->0 == b.subrange(pos, b.len() as int),
    decreases b.len() - pos,
{
    let end = pos + 12 + be_u32_at(b, pos);
    let kind = b.subrange(pos + 4, pos + 8);
    let ts = png_chunk_types(b, pos);
    assert(ts[0] == kind);
    assert(!dropped(kind));
    assert(b.subrange(pos, end) + b.subrange(end, b.len() as int) =~= b.subrange(
        pos,
        b.len() as int,
    ));
    if kind != png_iend() {
        let t = png_chunk_types(b, end);
        assert(ts == seq![kind] + t);
        assert forall|i: int| 0 <= i < t.len() implies !dropped(#[trigger] t[i]) by {
            assert(ts[i + 1] == t[i]);
        }
        lemma_png_chunks_unchanged(b, end, dropped);
    }
}

/// A PNG stream that starts with the signature `89 50 4E 47 0D 0A 1A 0A` and
/// has no chunk of type `eXIf`, `tEXt`, `zTXt`, `iTXt`, `iCCP` or `tIME`
/// before its IEND chunk comes back unchanged, trailing bytes included.
pub proof fn lemma_png_without_metadata_unchanged(b: Seq<u8>)
    requires
        spec_sanitize_png(b) is Some,
        b.len() >= 8 && b[0] == 0x89 && b[1] == 0x50 && b[2] == 0x4E && b[3] == 0x47 && b[4]
            == 0x0D && b[5] == 0x0A && b[6] == 0x1A && b[7] == 0x0A,
        forall|i: int|
            0 <= i < png_chunk_types(b, 8).len() ==> {
                let k = #[trigger] png_chunk_types(b, 8)[i];
                &&& k != seq![0x65u8, 0x58, 0x49, 0x66]
                &&& k != seq![0x74u8, 0x45, 0x58, 0x74]
                &&& k != seq![0x7Au8, 0x54, 0x58, 0x74]
                &&& k != seq![0x69u8, 0x54, 0x58, 0x74]
                &&& k != seq![0x69u8, 0x43, 0x43, 0x50]
                &&& k != seq![0x74u8, 0x49, 0x4D, 0x45]
            },
    ensures
        spec_sanitize_png(b)->0 == b,
{
    let dropped = |k: Seq<u8>|
        k == seq![0x65u8, 0x58, 0x49, 0x66] || k == seq![0x74u8, 0x45, 0x58, 0x74] || k == seq![
            0x7Au8,
            0x54,
            0x58,
            0x74,
        ] || k == seq![0x69u8, 0x54, 0x58, 0x74] || k == seq![0x69u8, 0x43, 0x43, 0x50] || k
            == seq![0x74u8, 0x49, 0x4D, 0x45];
    assert forall|k: Seq<u8>| #[trigger] dropped(k) == png_drops_chunk(k) by {}
    let ts = png_chunk_types(b, 8);
    assert forall|i: int| 0 <= i < ts.len() implies !dropped(#[trigger] ts[i]) by {}
    lemma_png_chunks_unchanged(b, 8, dropped);
    assert(b.subrange(0, 8) =~= png_signature());
    assert(png_signature() + b.subrange(8, b.len() as int) =~= b);
}

/// What stripping keeps of a PNG stream: the output's chunk types are the
/// input's, in order up to IEND, less every chunk of type `eXIf`, `tEXt`,
/// `zTXt`, `iTXt`, `iCCP` or `tIME`; no chunk of those types is left, and an
/// input that had one does not come back unchanged.
pub proof fn lemma_png_strip_removes_metadata(b: Seq<u8>)
    requires
        spec_sanitize_png(b) is Some,
    ensures
        png_chunk_types(spec_sanitize_png(b)->0, 8) == types_without(
            png_chunk_types(b, 8),
            |k: Seq<u8>|
                k == seq![0x65u8, 0x58, 0x49, 0x66] || k == seq![0x74u8, 0x45, 0x58, 0x74] || k
                    == seq![0x7Au8, 0x54, 0x58, 0x74] || k == seq![0x69u8, 0x54, 0x58, 0x74] || k
                    == seq![0x69u8, 0x43, 0x43, 0x50] || k == seq![0x74u8, 0x49, 0x4D, 0x45],
        ),
        forall|i: int|
            0 <= i < png_chunk_types(spec_sanitize_png(b)->0, 8).len() ==> {
                let k = #[trigger] png_chunk_types(spec_sanitize_png(b)->0, 8)[i];
                &&& k != seq![0x65u8, 0x58, 0x49, 0x66]
                &&& k != seq![0x74u8, 0x45, 0x58, 0x74]
                &&& k != seq![0x7Au8, 0x54, 0x58, 0x74]
                &&& k != seq![0x69u8, 0x54, 0x58, 0x74]
                &&& k != seq![0x69u8, 0x43, 0x43, 0x50]
                &&& k != seq![0x74u8, 0x49, 0x4D, 0x45]
            },
        (exists|i: int|
            0 <= i < png_chunk_types(b, 8).len() && {
                let k = #[trigger] png_chunk_types(b, 8)[i];
                ||| k == seq![0x65u8, 0x58, 0x49, 0x66]
                ||| k == seq![0x74u8, 0x45, 0x58, 0x74]
                ||| k == seq![0x7Au8, 0x54, 0x58, 0x74]
                ||| k == seq![0x69u8, 0x54, 0x58, 0x74]
                ||| k == seq![0x69u8, 0x43, 0x43, 0x50]
                ||| k == seq![0x74u8, 0x49, 0x4D, 0x45]
            }) ==> spec_sanitize_png(b)->0 != b,
{
    let dropped = |k: Seq<u8>|
        k == seq![0x65u8, 0x58, 0x49, 0x66] || k == seq![0x74u8, 0x45, 0x58, 0x74] || k == seq![
            0x7Au8,
            0x54,
            0x58,
            0x74,
        ] || k == seq![0x69u8, 0x54, 0x58, 0x74] || k == seq![0x69u8, 0x43, 0x43, 0x50] || k
            == seq![0x74u8, 0x49, 0x4D, 0x45];
    assert forall|k: Seq<u8>| #[trigger] dropped(k) == png_drops_chunk(k) by {}
    let out = spec_sanitize_png(b)->0;
    lemma_png_types_kept(b, 8, png_signature(), dropped);
    lemma_types_without_props(png_chunk_types(b, 8), dropped);
    let w = types_without(png_chunk_types(b, 8), dropped);
    assert forall|i: int| 0 <= i < png_chunk_types(out, 8).len() implies {
        let k = #[trigger] png_chunk_types(out, 8)[i];
        &&& k != seq![0x65u8, 0x58, 0x49, 0x66]
        &&& k != seq![0x74u8, 0x45, 0x58, 0x74]
        &&& k != seq![0x7Au8, 0x54, 0x58, 0x74]
        &&& k != seq![0x69u8, 0x54, 0x58, 0x74]
        &&& k != seq![0x69u8, 0x43, 0x43, 0x50]
        &&& k != seq![0x74u8, 0x49, 0x4D, 0x45]
    } by {
        assert(!dropped(w[i]));
    }
    if exists|i: int|
        0 <= i < png_chunk_types(b, 8).len() && {
            let k = #[trigger] png_chunk_types(b, 8)[i];
            ||| k == seq![0x65u8, 0x58, 0x49, 0x66]
            ||| k == seq![0x74u8, 0x45, 0x58, 0x74]
            ||| k == seq![0x7Au8, 0x54, 0x58, 0x74]
            ||| k == seq![0x69u8, 0x54, 0x58, 0x74]
            ||| k == seq![0x69u8, 0x43, 0x43, 0x50]
            ||| k == seq![0x74u8, 0x49, 0x4D, 0x45]
        } {
        let i = choose|i: int|
            0 <= i < png_chunk_types(b, 8).len() && {
                let k = #[trigger] png_chunk_types(b, 8)[i];
                ||| k == seq![0x65u8, 0x58, 0x49, 0x66]
                ||| k == seq![0x74u8, 0x45, 0x58, 0x74]
                ||| k == seq![0x7Au8, 0x54, 0x58, 0x74]
                ||| k == seq![0x69u8, 0x54, 0x58, 0x74]
                ||| k == seq![0x69u8, 0x43, 0x43, 0x50]
                ||| k == seq![0x74u8, 0x49, 0x4D, 0x45]
            };
        assert(dropped(png_chunk_types(b, 8)[i]));
        assert(w.len() < png_chunk_types(b, 8).len());
    }
}

proof fn lemma_png_chunks_shrink(b: Seq<u8>, pos: int)
    requires
        png_chunks_from(b, pos) is Some,
    ensures
        pos + png_chunks_from(b, pos)->0.len() <= b.len(),
    decreases b.len() - pos,
{
    let end = pos + 12 + be_u32_at(b, pos);
    let kind = b.subrange(pos + 4, pos + 8);
    if kind != png_iend() {
        lemma_png_chunks_shrink(b, end);
    }
}


proof fn lemma_skip_fill_shift(b: Seq<u8>, i: int, c: Seq<u8>, j: int)
    requires
        0 <= i,
        0 <= j,
        skip_fill(b, i) < b.len(),
        skip_fill(b, i) - i + j < c.len(),
        forall|k: int| i <= k <= skip_fill(b, i) ==> c[k - i + j] == b[k],
    ensures
        skip_fill(c, j) == skip_fill(b, i) - i + j,
    decreases b.len() - i,
{
    lemma_skip_fill(b, i);
    if i < b.len() && b[i] == 0xFF {
        assert(c[j] == b[i]);
        lemma_skip_fill_shift(b, i + 1, c, j + 1);
    } else {
        assert(c[j] == b[i]);
    }
}

/// The marker of the segment at `pos` and the offset just after it.
pub open spec fn jpeg_marker_end(b: Seq<u8>, pos: int) -> int {
    skip_fill(b, pos + 1) + 1
}

proof fn lemma_jpeg_copy_marker(b: Seq<u8>, pos: int, c: Seq<u8>, cq: int, e: int)
    requires
        0 <= pos < b.len(),
        b[pos] == 0xFF,
        skip_fill(b, pos + 1) < b.len(),
        jpeg_marker_end(b, pos) <= e <= b.len(),
        0 <= cq,
        cq + (e - pos) <= c.len(),
        c.subrange(cq, cq + (e - pos)) == b.subrange(pos, e),
    ensures
        c[cq] == 0xFF,
        skip_fill(c, cq + 1) == skip_fill(b, pos + 1) - pos + cq,
        forall|k: int| pos <= k < e ==> c[k - pos + cq] == b[k],
{
    lemma_skip_fill(b, pos + 1);
    let cs = c.subrange(cq, cq + (e - pos));
    let bs = b.subrange(pos, e);
    assert forall|k: int| pos <= k < e implies c[k - pos + cq] == b[k] by {
        assert(cs[k - pos] == c[cq + (k - pos)]);
        assert(bs[k - pos] == b[pos + (k - pos)]);
        assert(cs[k - pos] == bs[k - pos]);
    }
    lemma_skip_fill_shift(b, pos + 1, c, cq + 1);
}

#[verifier::rlimit(60)]
#[verifier::spinoff_prover]
proof fn lemma_jpeg_reparse_terminal(b: Seq<u8>, pos: int, p: Seq<u8>)
    requires
        0 <= pos < b.len(),
        b[pos] == 0xFF,
        skip_fill(b, pos + 1) < b.len(),
        b[skip_fill(b, pos + 1)] == 0xD9 || (!jpeg_standalone(b[skip_fill(b, pos + 1)])
            && b[skip_fill(b, pos + 1)] == 0xDA && jpeg_segments_from(b, pos) is Some),
    ensures
        jpeg_segments_from(b, pos) == Some(b.subrange(pos, b.len() as int)),
        jpeg_segments_from(p + b.subrange(pos, b.len() as int), p.len() as int) == Some(
            b.subrange(pos, b.len() as int),
        ),
{
    let r = b.subrange(pos, b.len() as int);
    let c = p + r;
    let cq = p.len() as int;
    assert(c.subrange(cq, cq + (b.len() - pos)) =~= r);
    lemma_jpeg_copy_marker(b, pos, c, cq, b.len() as int);
    lemma_skip_fill(b, pos + 1);
    let q = jpeg_marker_end(b, pos);
    let cqq = cq + (q - pos);
    if b[skip_fill(b, pos + 1)] != 0xD9 {
        assert(c[cqq] == b[q]);
        assert(c[cqq + 1] == b[q + 1]);
    }
    assert(c.subrange(cq, c.len() as int) =~= r);
}

#[verifier::rlimit(60)]
#[verifier::spinoff_prover]
proof fn lemma_jpeg_reparse_standalone(b: Seq<u8>, pos: int, p: Seq<u8>)
    requires
        0 <= pos < b.len(),
        b[pos] == 0xFF,
        skip_fill(b, pos + 1) < b.len(),
        b[skip_fill(b, pos + 1)] != 0xD9,
        jpeg_standalone(b[skip_fill(b, pos + 1)]),
        jpeg_segments_from(b, jpeg_marker_end(b, pos)) is Some,
        jpeg_segments_from(
            (p + b.subrange(pos, jpeg_marker_end(b, pos))) + jpeg_segments_from(b, jpeg_marker_end(b, pos))->0,
            p.len() + (jpeg_marker_end(b, pos) - pos),
        ) == jpeg_segments_from(b, jpeg_marker_end(b, pos)),
    ensures
        jpeg_segments_from(b, pos) is Some,
        jpeg_segments_from(p + jpeg_segments_from(b, pos)->0, p.len() as int)
            == jpeg_segments_from(b, pos),
{
    let q = jpeg_marker_end(b, pos);
    lemma_skip_fill(b, pos + 1);
    let seg = b.subrange(pos, q);
    let rest = jpeg_segments_from(b, q)->0;
    let r = seg + rest;
    let c = p + r;
    let cq = p.len() as int;
    assert((p + seg) + rest =~= c);
    assert(c.subrange(cq, cq + (q - pos)) =~= seg);
    lemma_jpeg_copy_marker(b, pos, c, cq, q);
}

#[verifier::rlimit(80)]
#[verifier::spinoff_prover]
proof fn lemma_jpeg_reparse_segment(b: Seq<u8>, pos: int, p: Seq<u8>)
    requires
        0 <= pos < b.len(),
        b[pos] == 0xFF,
        skip_fill(b, pos + 1) < b.len(),
        b[skip_fill(b, pos + 1)] != 0xD9,
        b[skip_fill(b, pos + 1)] != 0xDA,
        !jpeg_standalone(b[skip_fill(b, pos + 1)]),
        jpeg_marker_end(b, pos) + 2 <= b.len(),
        be_u16_at(b, jpeg_marker_end(b, pos)) >= 2,
        jpeg_marker_end(b, pos) + be_u16_at(b, jpeg_marker_end(b, pos)) <= b.len(),
        ({
            let end = jpeg_marker_end(b, pos) + be_u16_at(b, jpeg_marker_end(b, pos));
            let kept = if jpeg_drops_segment(
                b[skip_fill(b, pos + 1)],
                b.subrange(jpeg_marker_end(b, pos) + 2, end),
            ) {
                Seq::<u8>::empty()
            } else {
                b.subrange(pos, end)
            };
            &&& jpeg_segments_from(b, end) is Some
            &&& jpeg_segments_from(
                (p + kept) + jpeg_segments_from(b, end)->0,
                (p.len() + kept.len()) as int,
            ) == jpeg_segments_from(b, end)
        }),
    ensures
        jpeg_segments_from(b, pos) is Some,
        jpeg_segments_from(p + jpeg_segments_from(b, pos)->0, p.len() as int)
            == jpeg_segments_from(b, pos),
{
    let q = jpeg_marker_end(b, pos);
    let m = b[skip_fill(b, pos + 1)];
    lemma_skip_fill(b, pos + 1);
    let end = q + be_u16_at(b, q);
    let payload = b.subrange(q + 2, end);
    let rest = jpeg_segments_from(b, end)->0;
    if jpeg_drops_segment(m, payload) {
        assert(Seq::<u8>::empty() + rest =~= rest);
        assert(p + Seq::<u8>::empty() =~= p);
    } else {
        let seg = b.subrange(pos, end);
        let r = seg + rest;
        let c = p + r;
        let cq = p.len() as int;
        assert((p + seg) + rest =~= c);
        assert(c.subrange(cq, cq + (end - pos)) =~= seg);
        lemma_jpeg_copy_marker(b, pos, c, cq, end);
        let cqq = cq + (q - pos);
        assert(c[cqq] == b[q] && c[cqq + 1] == b[q + 1]);
        assert(c.subrange(cqq + 2, cq + (end - pos)) =~= payload);
    }
}

#[verifier::spinoff_prover]
proof fn lemma_jpeg_segments_reparse(b: Seq<u8>, pos: int, p: Seq<u8>)
    requires
        jpeg_segments_from(b, pos) is Some,
    ensures
        jpeg_segments_from(p + jpeg_segments_from(b, pos)->0, p.len() as int)
            == jpeg_segments_from(b, pos),
        jpeg_segments_from(b, pos)->0.len() >= 2,
        pos + jpeg_segments_from(b, pos)->0.len() <= b.len(),
    decreases b.len() - pos,
{
    let pp = skip_fill(b, pos + 1);
    lemma_skip_fill(b, pos + 1);
    let m = b[pp];
    let q = pp + 1;
    if m == 0xD9 || (!jpeg_standalone(m) && m == 0xDA) {
        lemma_jpeg_reparse_terminal(b, pos, p);
    } else if jpeg_standalone(m) {
        let seg = b.subrange(pos, q);
        lemma_jpeg_segments_reparse(b, q, p + seg);
        lemma_jpeg_reparse_standalone(b, pos, p);
    } else {
        let end = q + be_u16_at(b, q);
        let payload = b.subrange(q + 2, end);
        let kept = if jpeg_drops_segment(m, payload) {
            Seq::<u8>::empty()
        } else {
            b.subrange(pos, end)
        };
        lemma_jpeg_segments_reparse(b, end, p + kept);
        lemma_jpeg_reparse_segment(b, pos, p);
    }
}

/// Stripping a JPEG stream twice changes nothing the second time: the output
/// holds no metadata segment, keeps the first two bytes (so a JPEG stream
/// stays one), and is never longer than the input.
pub proof fn lemma_jpeg_strip_idempotent(b: Seq<u8>)
    requires
        b.len() >= 2,
        spec_sanitize_jpeg(b) is Some,
    ensures
        spec_is_jpeg(b) ==> spec_is_jpeg(spec_sanitize_jpeg(b)->0),
        spec_sanitize_jpeg(spec_sanitize_jpeg(b)->0) == spec_sanitize_jpeg(b),
        spec_sanitize_jpeg(b)->0.len() <= b.len(),
{
    let r = jpeg_segments_from(b, 2)->0;
    let head = b.subrange(0, 2);
    let c = head + r;
    lemma_jpeg_segments_reparse(b, 2, head);
    assert(c.subrange(0, 2) =~= head);
}


/// The segments of a JPEG stream from offset `pos` on, each as its marker
/// and payload (empty for a marker that stands alone), in order, up to and
/// including the first end-of-image or start-of-scan marker, as far as whole
/// segments are found.
pub open spec fn jpeg_segment_list(b: Seq<u8>, pos: int) -> Seq<(u8, Seq<u8>)>
    decreases b.len() - pos,
{
    if 0 <= pos < b.len() && b[pos] == 0xFF {
        let p = skip_fill(b, pos + 1);
        proof {
            lemma_skip_fill(b, pos + 1);
        }
        if p >= b.len() {
            Seq::empty()
        } else {
            let m = b[p];
            let q = p + 1;
            if m == 0xD9 {
                seq![(m, Seq::<u8>::empty())]
            } else if m == 0x01 || (0xD0 <= m && m <= 0xD7) {
                seq![(m, Seq::<u8>::empty())] + jpeg_segment_list(b, q)
            } else if q + 2 > b.len() {
                Seq::empty()
            } else {
                let end = q + be_u16_at(b, q);
                if end < q + 2 || end > b.len() {
                    Seq::empty()
                } else if m == 0xDA {
                    seq![(m, b.subrange(q + 2, end))]
                } else {
                    seq![(m, b.subrange(q + 2, end))] + jpeg_segment_list(b, end)
                }
            }
        }
    } else {
        Seq::empty()
    }
}

proof fn lemma_exists_in_cons<A>(x: A, t: Seq<A>, d: spec_fn(A) -> bool)
    ensures
        (exists|i: int| 0 <= i < (seq![x] + t).len() && d(#[trigger] (seq![x] + t)[i])) <==> (d(x)
            || exists|i: int| 0 <= i < t.len() && d(#[trigger] t[i])),
{
    let l = seq![x] + t;
    if exists|i: int| 0 <= i < l.len() && d(#[trigger] l[i]) {
        let i = choose|i: int| 0 <= i < l.len() && d(#[trigger] l[i]);
        if i > 0 {
            assert(l[i] == t[i - 1]);
        }
    }
    if exists|i: int| 0 <= i < t.len() && d(#[trigger] t[i]) {
        let i = choose|i: int| 0 <= i < t.len() && d(#[trigger] t[i]);
        assert(l[i + 1] == t[i]);
    }
    assert(l[0] == x);
}

#[verifier::rlimit(80)]
#[verifier::spinoff_prover]
proof fn lemma_jpeg_segments_drop(b: Seq<u8>, pos: int, dropped: spec_fn((u8, Seq<u8>)) -> bool)
    requires
        jpeg_segments_from(b, pos) is Some,
        forall|s: (u8, Seq<u8>)| #[trigger] dropped(s) == jpeg_drops_segment(s.0, s.1),
    ensures
        jpeg_segments_from(b, pos)->0.len() <= b.len() - pos,
        (forall|i: int|
            0 <= i < jpeg_segment_list(b, pos).len() ==> !dropped(
                #[trigger] jpeg_segment_list(b, pos)[i],
            )) ==> jpeg_segments_from(b, pos)->0 == b.subrange(pos, b.len() as int),
        (exists|i: int|
            0 <= i < jpeg_segment_list(b, pos).len() && dropped(
                #[trigger] jpeg_segment_list(b, pos)[i],
            )) ==> jpeg_segments_from(b, pos)->0.len() < b.len() - pos,
    decreases b.len() - pos,
{
    let l = jpeg_segment_list(b, pos);
    let p = skip_fill(b, pos + 1);
    lemma_skip_fill(b, pos + 1);
    let m = b[p];
    let q = p + 1;
    let e = Seq::<u8>::empty();
    if m == 0xD9 {
        assert(l =~= seq![(m, e)]);
        assert(!dropped((m, e)));
        lemma_exists_in_cons((m, e), Seq::<(u8, Seq<u8>)>::empty(), dropped);
        assert(seq![(m, e)] + Seq::<(u8, Seq<u8>)>::empty() =~= l);
    } else if m == 0x01 || (0xD0 <= m && m <= 0xD7) {
        assert(jpeg_standalone(m));
        let t = jpeg_segment_list(b, q);
        assert(l == seq![(m, e)] + t);
        assert(!dropped((m, e)));
        lemma_jpeg_segments_drop(b, q, dropped);
        lemma_exists_in_cons((m, e), t, dropped);
        if forall|i: int| 0 <= i < l.len() ==> !dropped(#[trigger] l[i]) {
            assert forall|i: int| 0 <= i < t.len() implies !dropped(#[trigger] t[i]) by {
                assert(l[i + 1] == t[i]);
            }
            assert(b.subrange(pos, q) + b.subrange(q, b.len() as int) =~= b.subrange(
                pos,
                b.len() as int,
            ));
        }
    } else {
        assert(!jpeg_standalone(m));
        let end = q + be_u16_at(b, q);
        let payload = b.subrange(q + 2, end);
        if m == 0xDA {
            assert(l =~= seq![(m, payload)]);
            assert(!dropped((m, payload)));
            lemma_exists_in_cons((m, payload), Seq::<(u8, Seq<u8>)>::empty(), dropped);
            assert(seq![(m, payload)] + Seq::<(u8, Seq<u8>)>::empty() =~= l);
        } else {
            let t = jpeg_segment_list(b, end);
            assert(l == seq![(m, payload)] + t);
            lemma_jpeg_segments_drop(b, end, dropped);
            lemma_exists_in_cons((m, payload), t, dropped);
            assert(dropped((m, payload)) == jpeg_drops_segment(m, payload));
            if forall|i: int| 0 <= i < l.len() ==> !dropped(#[trigger] l[i]) {
                assert(l[0] == (m, payload));
                assert forall|i: int| 0 <= i < t.len() implies !dropped(#[trigger] t[i]) by {
                    assert(l[i + 1] == t[i]);
                }
                assert(b.subrange(pos, end) + b.subrange(end, b.len() as int) =~= b.subrange(
                    pos,
                    b.len() as int,
                ));
            }
        }
    }
}

/// What stripping does to a JPEG stream: an input none of whose segments is
/// an APP1 (EXIF, XMP), APP13 (IPTC), comment, or APP2 holding an ICC
/// profile (payload starting `ICC_PROFILE` and a zero byte) comes back
/// unchanged; an input with one such segment comes back shorter.
pub proof fn lemma_jpeg_strip_removes_metadata(b: Seq<u8>)
    requires
        b.len() >= 2,
        spec_sanitize_jpeg(b) is Some,
    ensures
        (forall|i: int|
            0 <= i < jpeg_segment_list(b, 2).len() ==> {
                let s = #[trigger] jpeg_segment_list(b, 2)[i];
                !(s.0 == 0xE1 || s.0 == 0xED || s.0 == 0xFE || (s.0 == 0xE2 && s.1.len() >= 12
                    && s.1.subrange(0, 12) == seq![
                    0x49u8,
                    0x43,
                    0x43,
                    0x5F,
                    0x50,
                    0x52,
                    0x4F,
                    0x46,
                    0x49,
                    0x4C,
                    0x45,
                    0x00,
                ]))
            }) ==> spec_sanitize_jpeg(b)->0 == b,
        (exists|i: int|
            0 <= i < jpeg_segment_list(b, 2).len() && {
                let s = #[trigger] jpeg_segment_list(b, 2)[i];
                s.0 == 0xE1 || s.0 == 0xED || s.0 == 0xFE || (s.0 == 0xE2 && s.1.len() >= 12
                    && s.1.subrange(0, 12) == seq![
                    0x49u8,
                    0x43,
                    0x43,
                    0x5F,
                    0x50,
                    0x52,
                    0x4F,
                    0x46,
                    0x49,
                    0x4C,
                    0x45,
                    0x00,
                ])
            }) ==> spec_sanitize_jpeg(b)->0.len() < b.len(),
{
    let dropped = |s: (u8, Seq<u8>)|
        s.0 == 0xE1 || s.0 == 0xED || s.0 == 0xFE || (s.0 == 0xE2 && s.1.len() >= 12
            && s.1.subrange(0, 12) == seq![
            0x49u8,
            0x43,
            0x43,
            0x5F,
            0x50,
            0x52,
            0x4F,
            0x46,
            0x49,
            0x4C,
            0x45,
            0x00,
        ]);
    assert forall|s: (u8, Seq<u8>)| #[trigger] dropped(s) == jpeg_drops_segment(s.0, s.1) by {
        assert(icc_profile_tag() =~= seq![
            0x49u8,
            0x43,
            0x43,
            0x5F,
            0x50,
            0x52,
            0x4F,
            0x46,
            0x49,
            0x4C,
            0x45,
            0x00,
        ]);
    }
    lemma_jpeg_segments_drop(b, 2, dropped);
    let l = jpeg_segment_list(b, 2);
    if forall|i: int|
        0 <= i < l.len() ==> {
            let s = #[trigger] l[i];
            !(s.0 == 0xE1 || s.0 == 0xED || s.0 == 0xFE || (s.0 == 0xE2 && s.1.len() >= 12
                && s.1.subrange(0, 12) == seq![
                0x49u8,
                0x43,
                0x43,
                0x5F,
                0x50,
                0x52,
                0x4F,
                0x46,
                0x49,
                0x4C,
                0x45,
                0x00,
            ]))
        } {
        assert forall|i: int| 0 <= i < l.len() implies !dropped(#[trigger] l[i]) by {}
        assert(b.subrange(0, 2) + b.subrange(2, b.len() as int) =~= b);
    }
    if exists|i: int|
        0 <= i < l.len() && {
            let s = #[trigger] l[i];
            s.0 == 0xE1 || s.0 == 0xED || s.0 == 0xFE || (s.0 == 0xE2 && s.1.len() >= 12
                && s.1.subrange(0, 12) == seq![
                0x49u8,
                0x43,
                0x43,
                0x5F,
                0x50,
                0x52,
                0x4F,
                0x46,
                0x49,
                0x4C,
                0x45,
                0x00,
            ])
        } {
        let i = choose|i: int|
            0 <= i < l.len() && {
                let s = #[trigger] l[i];
                s.0 == 0xE1 || s.0 == 0xED || s.0 == 0xFE || (s.0 == 0xE2 && s.1.len() >= 12
                    && s.1.subrange(0, 12) == seq![
                    0x49u8,
                    0x43,
                    0x43,
                    0x5F,
                    0x50,
                    0x52,
                    0x4F,
                    0x46,
                    0x49,
                    0x4C,
                    0x45,
                    0x00,
                ])
            };
        assert(dropped(l[i]));
    }
}

/// The kept chunks of a well-formed WebP stream from `pos` on.
pub open spec fn webp_kept(b: Seq<u8>, pos: int) -> Seq<u8> {
    match webp_chunks_from(b, pos) {
        Some((r, _)) => r,
        None => Seq::empty(),
    }
}

/// The flags offset of the last extended-format header kept from `pos` on.
pub open spec fn webp_off(b: Seq<u8>, pos: int) -> Option<int> {
    match webp_chunks_from(b, pos) {
        Some((_, o)) => o,
        None => None,
    }
}

/// `r2` is `r` with at most the byte at `off` changed.
pub open spec fn same_but_flags(r: Seq<u8>, r2: Seq<u8>, off: Option<int>) -> bool {
    &&& r2.len() == r.len()
    &&& forall|i: int|
        0 <= i < r.len() && !(off == Some(i)) ==> #[trigger] r2[i] == r[i]
}

/// One step of the chunk walk over a stream `c` that holds, at `q`, a copy of
/// the first eight bytes of the chunk of `b` at `pos`.
proof fn lemma_webp_step(b: Seq<u8>, pos: int, c: Seq<u8>, q: int)
    requires
        0 <= pos,
        pos + 8 <= b.len(),
        pos + 8 + le_u32_at(b, pos + 4) + le_u32_at(b, pos + 4) % 2 <= b.len(),
        0 <= q,
        q + 8 + le_u32_at(b, pos + 4) + le_u32_at(b, pos + 4) % 2 <= c.len(),
        c.subrange(q, q + 8) == b.subrange(pos, pos + 8),
    ensures
        ({
            let size = le_u32_at(b, pos + 4);
            let len = 8 + size + size % 2;
            let kind = b.subrange(pos, pos + 4);
            let dropped = webp_drops_chunk(kind);
            let here = if !dropped && kind == vp8x_tag() && size >= 10 {
                Some(8int)
            } else {
                None
            };
            webp_chunks_from(c, q) == webp_combine(
                if dropped {
                    Seq::empty()
                } else {
                    c.subrange(q, q + len)
                },
                here,
                webp_chunks_from(c, q + len),
            )
        }),
{
    let cs = c.subrange(q, q + 8);
    let bs = b.subrange(pos, pos + 8);
    assert(cs[0] == c[q + 0] && bs[0] == b[pos + 0]);
    assert(cs[1] == c[q + 1] && bs[1] == b[pos + 1]);
    assert(cs[2] == c[q + 2] && bs[2] == b[pos + 2]);
    assert(cs[3] == c[q + 3] && bs[3] == b[pos + 3]);
    assert(cs[4] == c[q + 4] && bs[4] == b[pos + 4]);
    assert(cs[5] == c[q + 5] && bs[5] == b[pos + 5]);
    assert(cs[6] == c[q + 6] && bs[6] == b[pos + 6]);
    assert(cs[7] == c[q + 7] && bs[7] == b[pos + 7]);
    assert(c[q] == b[pos] && c[q + 1] == b[pos + 1] && c[q + 2] == b[pos + 2] && c[q + 3] == b[pos
        + 3]);
    assert(c[q + 4] == b[pos + 4] && c[q + 5] == b[pos + 5] && c[q + 6] == b[pos + 6] && c[q + 7]
        == b[pos + 7]);
    assert(c.subrange(q, q + 4) =~= b.subrange(pos, pos + 4));
}

proof fn lemma_webp_chunks_bounds(b: Seq<u8>, pos: int)
    requires
        webp_chunks_from(b, pos) is Some,
    ensures
        pos + webp_kept(b, pos).len() <= b.len(),
        webp_off(b, pos) matches Some(o) ==> 8 <= o < webp_kept(b, pos).len(),
    decreases b.len() - pos,
{
    if 0 <= pos && pos + 8 <= b.len() {
        let size = le_u32_at(b, pos + 4);
        let end = pos + 8 + size + size % 2;
        lemma_webp_chunks_bounds(b, end);
    }
}

#[verifier::spinoff_prover]
proof fn lemma_webp_chunks_reparse(b: Seq<u8>, pos: int, p: Seq<u8>, r2: Seq<u8>)
    requires
        webp_chunks_from(b, pos) is Some,
        same_but_flags(webp_kept(b, pos), r2, webp_off(b, pos)),
    ensures
        webp_chunks_from(p + r2, p.len() as int) == Some((r2, webp_off(b, pos))),
    decreases b.len() - pos,
{
    let r = webp_kept(b, pos);
    let off = webp_off(b, pos);
    let c = p + r2;
    let big_q = p.len() as int;
    lemma_webp_chunks_bounds(b, pos);
    if 0 <= pos && pos + 8 <= b.len() {
        let size = le_u32_at(b, pos + 4);
        let end = pos + 8 + size + size % 2;
        let kind = b.subrange(pos, pos + 4);
        let dropped = webp_drops_chunk(kind);
        let rest = webp_kept(b, end);
        let off_rest = webp_off(b, end);
        lemma_webp_chunks_bounds(b, end);
        if dropped {
            assert(r =~= rest);
            lemma_webp_chunks_reparse(b, end, p, r2);
        } else {
            let len = end - pos;
            let chunk = b.subrange(pos, end);
            assert(r == chunk + rest);
            let head2 = r2.subrange(0, len);
            let tail2 = r2.subrange(len, r2.len() as int);
            assert forall|i: int| 0 <= i < rest.len() && !(off_rest == Some(i)) implies tail2[i]
                == rest[i] by {
                assert(r2[len + i] == r[len + i]);
            }
            lemma_webp_chunks_reparse(b, end, p + head2, tail2);
            assert((p + head2) + tail2 =~= c);
            assert(head2 + tail2 =~= r2);
            assert forall|i: int| 0 <= i < 8 implies #[trigger] c.subrange(big_q, big_q + 8)[i]
                == b.subrange(pos, pos + 8)[i] by {
                assert(r2[i] == r[i]);
            }
            assert(c.subrange(big_q, big_q + 8) =~= b.subrange(pos, pos + 8));
            lemma_webp_step(b, pos, c, big_q);
            assert(c.subrange(big_q, big_q + len) =~= head2);
        }
    } else {
        assert(r2 =~= Seq::<u8>::empty());
        assert(c =~= p);
    }
}

proof fn lemma_le_u32_roundtrip(n: int)
    requires
        0 <= n < 4294967296,
    ensures
        le_u32_at(le_u32_bytes(n), 0) == n,
{
    let b = le_u32_bytes(n);
    assert(b[0] == n % 256);
    assert(b[1] == (n / 256) % 256);
    assert(b[2] == (n / 65536) % 256);
    assert(b[3] == (n / 16777216) % 256);
    assert((n % 256) + ((n / 256) % 256) * 256 + ((n / 65536) % 256) * 65536 + ((n / 16777216)
        % 256) * 16777216 == n) by (nonlinear_arith)
        requires
            0 <= n < 4294967296,
    ;
}

/// The chunks of a WebP stream from offset `pos` on, each as its type, its
/// size and the first byte of its payload (zero for an empty one), in order,
/// as far as whole chunks are found.
pub open spec fn webp_chunk_list(b: Seq<u8>, pos: int) -> Seq<(Seq<u8>, int, u8)>
    decreases b.len() - pos,
{
    if 0 <= pos && pos + 8 <= b.len() {
        let size = le_u32_at(b, pos + 4);
        let end = pos + 8 + size + size % 2;
        if end > b.len() {
            Seq::empty()
        } else {
            seq![
                (b.subrange(pos, pos + 4), size, if size > 0 {
                    b[pos + 8]
                } else {
                    0u8
                }),
            ] + webp_chunk_list(b, end)
        }
    } else {
        Seq::empty()
    }
}

#[verifier::rlimit(60)]
#[verifier::spinoff_prover]
proof fn lemma_webp_chunks_drop(
    b: Seq<u8>,
    pos: int,
    dropped: spec_fn((Seq<u8>, int, u8)) -> bool,
    flagged: spec_fn((Seq<u8>, int, u8)) -> bool,
)
    requires
        webp_chunks_from(b, pos) is Some,
        forall|c: (Seq<u8>, int, u8)| #[trigger] dropped(c) == webp_drops_chunk(c.0),
        forall|c: (Seq<u8>, int, u8)|
            #[trigger] flagged(c) == (c.0 == vp8x_tag() && c.1 >= 10 && c.2 & 0x2C != 0),
    ensures
        pos + webp_kept(b, pos).len() <= b.len(),
        (forall|i: int|
            0 <= i < webp_chunk_list(b, pos).len() ==> !dropped(#[trigger] webp_chunk_list(b, pos)[i])
                && !flagged(webp_chunk_list(b, pos)[i])) ==> webp_kept(b, pos) == b.subrange(
            pos,
            b.len() as int,
        ) && (webp_off(b, pos) matches Some(o) ==> webp_kept(b, pos)[o] & 0x2C == 0),
        (exists|i: int|
            0 <= i < webp_chunk_list(b, pos).len() && dropped(
                #[trigger] webp_chunk_list(b, pos)[i],
            )) ==> pos + webp_kept(b, pos).len() < b.len(),
    decreases b.len() - pos,
{
    lemma_webp_chunks_bounds(b, pos);
    let l = webp_chunk_list(b, pos);
    if 0 <= pos && pos + 8 <= b.len() {
        let size = le_u32_at(b, pos + 4);
        let end = pos + 8 + size + size % 2;
        let kind = b.subrange(pos, pos + 4);
        let x = (kind, size, if size > 0 {
            b[pos + 8]
        } else {
            0u8
        });
        let t = webp_chunk_list(b, end);
        assert(l == seq![x] + t);
        lemma_webp_chunks_drop(b, end, dropped, flagged);
        lemma_webp_chunks_bounds(b, end);
        lemma_exists_in_cons(x, t, dropped);
        if forall|i: int| 0 <= i < l.len() ==> !dropped(#[trigger] l[i]) && !flagged(l[i]) {
            assert(l[0] == x);
            assert(!dropped(x) && !flagged(x));
            assert forall|i: int| 0 <= i < t.len() implies !dropped(#[trigger] t[i]) && !flagged(
                t[i],
            ) by {
                assert(l[i + 1] == t[i]);
            }
            let chunk = b.subrange(pos, end);
            let rest = webp_kept(b, end);
            assert(webp_kept(b, pos) == chunk + rest);
            assert(chunk + b.subrange(end, b.len() as int) =~= b.subrange(pos, b.len() as int));
            if let Some(o) = webp_off(b, end) {
                assert(webp_off(b, pos) == Some(chunk.len() + o));
                assert(webp_kept(b, pos)[chunk.len() + o] == rest[o]);
            } else if kind == vp8x_tag() && size >= 10 {
                assert(webp_off(b, pos) == Some(8int));
                assert(webp_kept(b, pos)[8] == b[pos + 8]);
            }
        }
    } else {
        assert(l =~= Seq::<(Seq<u8>, int, u8)>::empty());
        assert(pos == b.len());
        assert(b.subrange(pos, b.len() as int) =~= Seq::<u8>::empty());
    }
}

proof fn lemma_le_u32_bytes_of_at(b: Seq<u8>, i: int)
    requires
        0 <= i,
        i + 4 <= b.len(),
    ensures
        le_u32_bytes(le_u32_at(b, i)) == b.subrange(i, i + 4),
{
    let b0 = b[i] as int;
    let b1 = b[i + 1] as int;
    let b2 = b[i + 2] as int;
    let b3 = b[i + 3] as int;
    let n = le_u32_at(b, i);
    assert(n % 256 == b0 && (n / 256) % 256 == b1 && (n / 65536) % 256 == b2 && (n / 16777216)
        % 256 == b3) by (nonlinear_arith)
        requires
            n == b0 + b1 * 256 + b2 * 65536 + b3 * 16777216,
            0 <= b0 < 256,
            0 <= b1 < 256,
            0 <= b2 < 256,
            0 <= b3 < 256,
    ;
    assert(le_u32_bytes(n) =~= b.subrange(i, i + 4));
}

#[verifier::spinoff_prover]
proof fn lemma_webp_unchanged(b: Seq<u8>)
    requires
        spec_sanitize_webp(b) is Some,
        b.subrange(0, 4) == riff_tag(),
        b.subrange(8, 12) == webp_tag(),
        webp_kept(b, 12) == b.subrange(12, b.len() as int),
        webp_off(b, 12) matches Some(o) ==> webp_kept(b, 12)[o] & 0x2C == 0,
    ensures
        spec_sanitize_webp(b)->0 == b,
{
    reveal(spec_sanitize_webp);
    lemma_webp_chunks_bounds(b, 12);
    let body = webp_kept(b, 12);
    let off = webp_off(b, 12);
    let body2 = webp_clear_flags(body, off);
    let out = spec_sanitize_webp(b)->0;
    assert(out == riff_tag() + le_u32_bytes(body2.len() + 4int) + webp_tag() + body2);
    if let Some(o) = off {
        let x = body[o];
        assert(x & 0x2C == 0 ==> x & !0x2Cu8 == x) by (bit_vector);
        assert(body2 =~= body);
    }
    assert(body2 == body);
    lemma_le_u32_bytes_of_at(b, 4);
    assert(body2.len() + 4 == le_u32_at(b, 4));
    assert(out =~= b.subrange(0, 4) + b.subrange(4, 8) + b.subrange(8, 12) + b.subrange(12, b.len() as int));
    assert(out =~= b);
}

/// What stripping does to a WebP stream: an input with the `RIFF` and
/// `WEBP` tags, no `ICCP`, `EXIF` or `XMP ` chunk, and no extended-format
/// (`VP8X`) header announcing a colour profile, EXIF or XMP (bits 0x20,
/// 0x08, 0x04) comes back unchanged; an input with an `ICCP`, `EXIF` or
/// `XMP ` chunk comes back shorter.
#[verifier::spinoff_prover]
pub proof fn lemma_webp_strip_removes_metadata(b: Seq<u8>)
    requires
        spec_sanitize_webp(b) is Some,
    ensures
        (b.subrange(0, 4) == seq![0x52u8, 0x49, 0x46, 0x46] && b.subrange(8, 12) == seq![
            0x57u8,
            0x45,
            0x42,
            0x50,
        ] && forall|i: int|
            0 <= i < webp_chunk_list(b, 12).len() ==> {
                let c = #[trigger] webp_chunk_list(b, 12)[i];
                &&& c.0 != seq![0x49u8, 0x43, 0x43, 0x50]
                &&& c.0 != seq![0x45u8, 0x58, 0x49, 0x46]
                &&& c.0 != seq![0x58u8, 0x4D, 0x50, 0x20]
                &&& (c.0 == seq![0x56u8, 0x50, 0x38, 0x58] && c.1 >= 10 ==> c.2 & 0x2C == 0)
            }) ==> spec_sanitize_webp(b)->0 == b,
        (exists|i: int|
            0 <= i < webp_chunk_list(b, 12).len() && {
                let c = #[trigger] webp_chunk_list(b, 12)[i];
                ||| c.0 == seq![0x49u8, 0x43, 0x43, 0x50]
                ||| c.0 == seq![0x45u8, 0x58, 0x49, 0x46]
                ||| c.0 == seq![0x58u8, 0x4D, 0x50, 0x20]
            }) ==> spec_sanitize_webp(b)->0.len() < b.len(),
{
    reveal(spec_sanitize_webp);
    let dropped = |c: (Seq<u8>, int, u8)|
        c.0 == seq![0x49u8, 0x43, 0x43, 0x50] || c.0 == seq![0x45u8, 0x58, 0x49, 0x46] || c.0
            == seq![0x58u8, 0x4D, 0x50, 0x20];
    let flagged = |c: (Seq<u8>, int, u8)|
        (c.0 == seq![0x56u8, 0x50, 0x38, 0x58] && c.1 >= 10 && c.2 & 0x2C != 0);
    assert forall|c: (Seq<u8>, int, u8)| #[trigger] dropped(c) == webp_drops_chunk(c.0) by {}
    assert forall|c: (Seq<u8>, int, u8)|
        #[trigger] flagged(c) == (c.0 == vp8x_tag() && c.1 >= 10 && c.2 & 0x2C != 0) by {}
    lemma_webp_chunks_drop(b, 12, dropped, flagged);
    let l = webp_chunk_list(b, 12);
    if b.subrange(0, 4) == seq![0x52u8, 0x49, 0x46, 0x46] && b.subrange(8, 12) == seq![
        0x57u8,
        0x45,
        0x42,
        0x50,
    ] && forall|i: int|
        0 <= i < l.len() ==> {
            let c = #[trigger] l[i];
            &&& c.0 != seq![0x49u8, 0x43, 0x43, 0x50]
            &&& c.0 != seq![0x45u8, 0x58, 0x49, 0x46]
            &&& c.0 != seq![0x58u8, 0x4D, 0x50, 0x20]
            &&& (c.0 == seq![0x56u8, 0x50, 0x38, 0x58] && c.1 >= 10 ==> c.2 & 0x2C == 0)
        } {
        assert forall|i: int| 0 <= i < l.len() implies !dropped(#[trigger] l[i]) && !flagged(l[i]) by {}
        lemma_webp_unchanged(b);
    }
    if exists|i: int|
        0 <= i < l.len() && {
            let c = #[trigger] l[i];
            ||| c.0 == seq![0x49u8, 0x43, 0x43, 0x50]
            ||| c.0 == seq![0x45u8, 0x58, 0x49, 0x46]
            ||| c.0 == seq![0x58u8, 0x4D, 0x50, 0x20]
        } {
        let i = choose|i: int|
            0 <= i < l.len() && {
                let c = #[trigger] l[i];
                ||| c.0 == seq![0x49u8, 0x43, 0x43, 0x50]
                ||| c.0 == seq![0x45u8, 0x58, 0x49, 0x46]
                ||| c.0 == seq![0x58u8, 0x4D, 0x50, 0x20]
            };
        assert(dropped(l[i]));
        let body = webp_kept(b, 12);
        let body2 = webp_clear_flags(body, webp_off(b, 12));
        lemma_webp_chunks_bounds(b, 12);
        assert(body2.len() == body.len());
        assert(spec_sanitize_webp(b)->0 == riff_tag() + le_u32_bytes(body2.len() + 4int)
            + webp_tag() + body2);
    }
}

#[verifier::rlimit(60)]
#[verifier::spinoff_prover]
proof fn lemma_webp_last_header(
    c: Seq<u8>,
    pos: int,
    dropped: spec_fn((Seq<u8>, int, u8)) -> bool,
    hdr: spec_fn((Seq<u8>, int, u8)) -> bool,
)
    requires
        webp_chunks_from(c, pos) is Some,
        forall|x: (Seq<u8>, int, u8)| #[trigger] dropped(x) == webp_drops_chunk(x.0),
        forall|x: (Seq<u8>, int, u8)| #[trigger] hdr(x) == (x.0 == vp8x_tag() && x.1 >= 10),
        forall|i: int|
            0 <= i < webp_chunk_list(c, pos).len() ==> !dropped(#[trigger] webp_chunk_list(c, pos)[i]),
    ensures
        webp_off(c, pos) matches Some(o) ==> exists|i: int|
            0 <= i < webp_chunk_list(c, pos).len() && hdr(#[trigger] webp_chunk_list(c, pos)[i])
                && (forall|j: int|
                i < j < webp_chunk_list(c, pos).len() ==> !hdr(
                    #[trigger] webp_chunk_list(c, pos)[j],
                )) && webp_chunk_list(c, pos)[i].2 == webp_kept(c, pos)[o],
        webp_off(c, pos) is None ==> forall|i: int|
            0 <= i < webp_chunk_list(c, pos).len() ==> !hdr(#[trigger] webp_chunk_list(c, pos)[i]),
    decreases c.len() - pos,
{
    let l = webp_chunk_list(c, pos);
    lemma_webp_chunks_bounds(c, pos);
    if 0 <= pos && pos + 8 <= c.len() {
        let size = le_u32_at(c, pos + 4);
        let end = pos + 8 + size + size % 2;
        let kind = c.subrange(pos, pos + 4);
        let x = (kind, size, if size > 0 {
            c[pos + 8]
        } else {
            0u8
        });
        let t = webp_chunk_list(c, end);
        assert(l == seq![x] + t);
        assert(l[0] == x);
        assert(!dropped(x));
        assert forall|i: int| 0 <= i < t.len() implies !dropped(#[trigger] t[i]) by {
            assert(l[i + 1] == t[i]);
        }
        lemma_webp_last_header(c, end, dropped, hdr);
        lemma_webp_chunks_bounds(c, end);
        let chunk = c.subrange(pos, end);
        let rest = webp_kept(c, end);
        assert(webp_kept(c, pos) == chunk + rest);
        if let Some(k) = webp_off(c, end) {
            let i2 = choose|i: int|
                0 <= i < t.len() && hdr(#[trigger] t[i]) && (forall|j: int|
                    i < j < t.len() ==> !hdr(#[trigger] t[j])) && t[i].2 == rest[k];
            assert(webp_off(c, pos) == Some(chunk.len() + k));
            assert(webp_kept(c, pos)[chunk.len() + k] == rest[k]);
            assert(l[i2 + 1] == t[i2]);
            assert forall|j: int| i2 + 1 < j < l.len() implies !hdr(#[trigger] l[j]) by {
                assert(l[j] == t[j - 1]);
            }
        } else {
            assert forall|j: int| 0 < j < l.len() implies !hdr(#[trigger] l[j]) by {
                assert(l[j] == t[j - 1]);
            }
            if hdr(x) {
                assert(webp_off(c, pos) == Some(8int));
                assert(webp_kept(c, pos)[8] == c[pos + 8]);
            } else {
                assert(webp_off(c, pos) is None);
            }
        }
    } else {
        assert(l =~= Seq::<(Seq<u8>, int, u8)>::empty());
    }
}

/// After stripping, the last extended-format header of the WebP output (a
/// `VP8X` chunk of at least ten bytes) announces no colour profile, EXIF or
/// XMP: bits 0x20, 0x08 and 0x04 of its flags byte are clear.
#[verifier::spinoff_prover]
pub proof fn lemma_webp_flags_cleared(b: Seq<u8>)
    requires
        spec_sanitize_webp(b) is Some,
    ensures
        forall|i: int|
            0 <= i < webp_chunk_list(spec_sanitize_webp(b)->0, 12).len() && ({
                let x = #[trigger] webp_chunk_list(spec_sanitize_webp(b)->0, 12)[i];
                x.0 == seq![0x56u8, 0x50, 0x38, 0x58] && x.1 >= 10
            }) && (forall|j: int|
                i < j < webp_chunk_list(spec_sanitize_webp(b)->0, 12).len() ==> {
                    let y = #[trigger] webp_chunk_list(spec_sanitize_webp(b)->0, 12)[j];
                    !(y.0 == seq![0x56u8, 0x50, 0x38, 0x58] && y.1 >= 10)
                }) ==> webp_chunk_list(spec_sanitize_webp(b)->0, 12)[i].2 & 0x2C == 0,
{
    reveal(spec_sanitize_webp);
    let (body, off) = webp_chunks_from(b, 12)->0;
    let body2 = webp_clear_flags(body, off);
    let n = body2.len() + 4int;
    let head = riff_tag() + le_u32_bytes(n) + webp_tag();
    let out = head + body2;
    assert(out == spec_sanitize_webp(b)->0);
    lemma_webp_chunks_bounds(b, 12);
    lemma_webp_chunks_reparse(b, 12, head, body2);
    assert(head.len() == 12);
    assert(webp_kept(out, 12) == body2);
    assert(webp_off(out, 12) == off);
    let dropped = |x: (Seq<u8>, int, u8)| webp_drops_chunk(x.0);
    let flagged = |x: (Seq<u8>, int, u8)| (x.0 == vp8x_tag() && x.1 >= 10 && x.2 & 0x2C != 0);
    let hdr = |x: (Seq<u8>, int, u8)| (x.0 == vp8x_tag() && x.1 >= 10);
    lemma_webp_chunks_drop(out, 12, dropped, flagged);
    let l = webp_chunk_list(out, 12);
    assert(body2.len() == body.len());
    assert forall|i: int| 0 <= i < l.len() implies !dropped(#[trigger] l[i]) by {
        if dropped(l[i]) {
            assert(12 + webp_kept(out, 12).len() < out.len());
        }
    }
    lemma_webp_last_header(out, 12, dropped, hdr);
    assert forall|i: int|
        0 <= i < l.len() && ({
            let x = #[trigger] l[i];
            x.0 == seq![0x56u8, 0x50, 0x38, 0x58] && x.1 >= 10
        }) && (forall|j: int|
            i < j < l.len() ==> {
                let y = #[trigger] l[j];
                !(y.0 == seq![0x56u8, 0x50, 0x38, 0x58] && y.1 >= 10)
            }) implies l[i].2 & 0x2C == 0 by {
        assert(hdr(l[i]));
        if let Some(o) = off {
            let i0 = choose|i0: int|
                0 <= i0 < l.len() && hdr(#[trigger] l[i0]) && (forall|j: int|
                    i0 < j < l.len() ==> !hdr(#[trigger] l[j])) && l[i0].2 == webp_kept(out, 12)[o];
            if i < i0 {
                assert(hdr(l[i0]));
            } else if i0 < i {
                assert(!hdr(l[i]));
            }
            let v = body[o];
            assert(v & !0x2Cu8 & 0x2C == 0) by (bit_vector);
            assert(body2[o] == v & !vp8x_metadata_flags());
        } else {
            assert(!hdr(l[i]));
        }
    }
}

/// Stripping a WebP stream twice changes nothing the second time: the output
/// is again a WebP stream, with no metadata chunk and no metadata flag set.
#[verifier::spinoff_prover]
pub proof fn lemma_webp_strip_idempotent(b: Seq<u8>)
    requires
        spec_sanitize_webp(b) is Some,
    ensures
        spec_is_webp(spec_sanitize_webp(b)->0),
        spec_sanitize_webp(spec_sanitize_webp(b)->0) == spec_sanitize_webp(b),
        spec_sanitize_webp(b)->0.len() <= b.len(),
        spec_sanitize_webp(b)->0[0] == 0x52,
{
    reveal(spec_sanitize_webp);
    let (body, off) = webp_chunks_from(b, 12)->0;
    let body2 = webp_clear_flags(body, off);
    let n = body2.len() + 4int;
    let head = riff_tag() + le_u32_bytes(n) + webp_tag();
    let c = head + body2;
    assert(c == spec_sanitize_webp(b)->0);
    lemma_webp_chunks_bounds(b, 12);
    lemma_webp_chunks_reparse(b, 12, head, body2);
    assert(head.len() == 12);
    assert(n < 4294967296);
    lemma_le_u32_roundtrip(n);
    assert(c[4] == le_u32_bytes(n)[0] && c[5] == le_u32_bytes(n)[1] && c[6] == le_u32_bytes(n)[2]
        && c[7] == le_u32_bytes(n)[3]);
    assert(c.subrange(0, 4) =~= riff_tag());
    assert(c.subrange(8, 12) =~= webp_tag());
    assert(c[0] == c.subrange(0, 4)[0]);
    let body3 = webp_clear_flags(body2, off);
    if let Some(o) = off {
        let x = body[o];
        assert(x & !vp8x_metadata_flags() & !vp8x_metadata_flags() == x & !vp8x_metadata_flags())
            by (bit_vector);
        assert(body3 =~= body2);
    }
}


proof fn lemma_known_png(b: Seq<u8>)
    requires
        spec_is_png(b),
        spec_sanitize_png(b) is Some,
    ensures
        known_format(spec_sanitize_png(b)->0) == Some(MediaKind::Png),
        spec_sanitize_png(spec_sanitize_png(b)->0) == spec_sanitize_png(b),
        spec_sanitize_png(b)->0.len() <= b.len(),
{
    lemma_png_strip_idempotent(b);
}

#[verifier::spinoff_prover]
proof fn lemma_known_jpeg(b: Seq<u8>)
    requires
        spec_is_jpeg(b),
        spec_sanitize_jpeg(b) is Some,
    ensures
        known_format(spec_sanitize_jpeg(b)->0) == Some(MediaKind::Jpeg),
        spec_sanitize_jpeg(spec_sanitize_jpeg(b)->0) == spec_sanitize_jpeg(b),
        spec_sanitize_jpeg(b)->0.len() <= b.len(),
{
    lemma_jpeg_strip_idempotent(b);
    let c = spec_sanitize_jpeg(b)->0;
    if c.len() >= 8 && c.subrange(0, 8) == png_signature() {
        assert(c.subrange(0, 8)[0] == c[0]);
    }
}

#[verifier::spinoff_prover]
proof fn lemma_known_webp(b: Seq<u8>)
    requires
        spec_is_webp(b),
        spec_sanitize_webp(b) is Some,
    ensures
        known_format(spec_sanitize_webp(b)->0) == Some(MediaKind::Webp),
        spec_sanitize_webp(spec_sanitize_webp(b)->0) == spec_sanitize_webp(b),
        spec_sanitize_webp(b)->0.len() <= b.len(),
{
    lemma_webp_strip_idempotent(b);
    let c = spec_sanitize_webp(b)->0;
    if c.len() >= 8 && c.subrange(0, 8) == png_signature() {
        assert(c.subrange(0, 8)[0] == c[0]);
    }
}

/// Stripping is idempotent: what comes out of a recognised input is again
/// recognised as the same format, and stripping it once more gives it back
/// unchanged, so `sanitize_media` reports it as kept. It is never longer than
/// the input.
pub proof fn lemma_sanitize_idempotent(b: Seq<u8>)
    requires
        known_format(b) is Some,
        sanitize_as(known_format(b)->0, b) is Some,
    ensures
        known_format(sanitize_as(known_format(b)->0, b)->0) == known_format(b),
        sanitize_as(known_format(b)->0, sanitize_as(known_format(b)->0, b)->0) == sanitize_as(
            known_format(b)->0,
            b,
        ),
        sanitize_as(known_format(b)->0, b)->0.len() <= b.len(),
{
    match known_format(b)->0 {
        MediaKind::Png => lemma_known_png(b),
        MediaKind::Jpeg => lemma_known_jpeg(b),
        MediaKind::Webp => lemma_known_webp(b),
    }
}

} // verus!
