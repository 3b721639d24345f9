//! The formats of picture files, as far as their bytes tell whether a decoder may panic on them.
//!
//! Some decoders panic on files that are built in an unusual way. The tests here find every such
//! file; some files that could be decoded are found with them.
use vstd::prelude::*;

verus! {

/// Whether the bytes `a`, `b`, `c` and `d` stand at position `at` of `bytes`.
pub open spec fn four_at(bytes: Seq<u8>, at: int, a: u8, b: u8, c: u8, d: u8) -> bool {
    &&& 0 <= at
    &&& at + 4 <= bytes.len()
    &&& bytes[at] == a
    &&& bytes[at + 1] == b
    &&& bytes[at + 2] == c
    &&& bytes[at + 3] == d
}

/// The number with the upper byte `high` and the lower byte `low`.
pub open spec fn pair(high: u8, low: u8) -> int {
    high * 256 + low
}

/// The number in the two bytes at position `at`, upper byte first where `big`.
pub open spec fn short_at(bytes: Seq<u8>, big: bool, at: int) -> int {
    if big {
        pair(bytes[at], bytes[at + 1])
    } else {
        pair(bytes[at + 1], bytes[at])
    }
}

/// The number in the four bytes at position `at`, upper byte first where `big`.
pub open spec fn long_at(bytes: Seq<u8>, big: bool, at: int) -> int {
    if big {
        short_at(bytes, big, at) * 65536 + short_at(bytes, big, at + 2)
    } else {
        short_at(bytes, big, at + 2) * 65536 + short_at(bytes, big, at)
    }
}

/// Whether the bytes `a`, `b`, `c` and `d` stand at position `at` of `bytes`.
fn has_four(bytes: &Vec<u8>, at: usize, a: u8, b: u8, c: u8, d: u8) -> (r: bool)
    ensures
        r == four_at(bytes@, at as int, a, b, c, d),
{
    at < bytes.len() && bytes.len() - at >= 4 && bytes[at] == a && bytes[at + 1] == b && bytes[at + 2]
        == c && bytes[at + 3] == d
}

/// The number with the upper byte `high` and the lower byte `low`.
fn pair_of(high: u8, low: u8) -> (r: u32)
    ensures
        r == pair(high, low),
        r < 65536,
{
    high as u32 * 256 + low as u32
}

/// The number in the two bytes at position `at`.
fn read_short(bytes: &Vec<u8>, big: bool, at: usize) -> (r: u32)
    requires
        at + 2 <= bytes.len(),
    ensures
        r == short_at(bytes@, big, at as int),
        r < 65536,
{
    if big {
        pair_of(bytes[at], bytes[at + 1])
    } else {
        pair_of(bytes[at + 1], bytes[at])
    }
}

/// The number in the four bytes at position `at`.
fn read_long(bytes: &Vec<u8>, big: bool, at: usize) -> (r: u32)
    requires
        at + 4 <= bytes.len(),
    ensures
        r == long_at(bytes@, big, at as int),
{
    let first = read_short(bytes, big, at);
    let second = read_short(bytes, big, at + 2);
    if big {
        first * 65536 + second
    } else {
        second * 65536 + first
    }
}

// ---------------------------------------------------------------------------------------------
// PNG, and ICO that may hold it
// ---------------------------------------------------------------------------------------------

/// Whether `bytes` are a PNG file.
pub open spec fn is_png(bytes: Seq<u8>) -> bool {
    four_at(bytes, 0, 0x89, 0x50, 0x4E, 0x47) && four_at(bytes, 4, 0x0D, 0x0A, 0x1A, 0x0A)
}

/// Whether `bytes` are an ICO file.
pub open spec fn is_ico(bytes: Seq<u8>) -> bool {
    four_at(bytes, 0, 0x00, 0x00, 0x01, 0x00)
}

/// Whether the name of a PNG chunk stands at position `i` of `bytes` that the decoder can stumble
/// over: a palette (`PLTE`) whose length, in the four bytes before, is no multiple of three or is
/// more than 256 colours take; a header (`IHDR`) with a width or height of 16777216 or more; or the
/// start of an animation (`acTL`) of as many frames as 32 bits can count.
pub open spec fn png_chunk_stumbles(bytes: Seq<u8>, i: int) -> bool {
    ||| {
        &&& four_at(bytes, i, 0x50, 0x4C, 0x54, 0x45)
        &&& 4 <= i
        &&& long_at(bytes, true, i - 4) % 3 != 0 || long_at(bytes, true, i - 4) > 768
    }
    ||| {
        &&& four_at(bytes, i, 0x49, 0x48, 0x44, 0x52)
        &&& i + 12 <= bytes.len()
        &&& bytes[i + 4] != 0 || bytes[i + 8] != 0
    }
    ||| {
        &&& four_at(bytes, i, 0x61, 0x63, 0x54, 0x4C)
        &&& four_at(bytes, i + 4, 0xFF, 0xFF, 0xFF, 0xFF)
    }
}

/// Whether `bytes` hold no chunk that the PNG decoder can stumble over.
pub open spec fn png_comes_back(bytes: Seq<u8>) -> bool {
    forall|i: int| !#[trigger] png_chunk_stumbles(bytes, i)
}

/// Whether the name of a chunk stands at position `i` of `bytes` that the PNG decoder can stumble
/// over.
fn test_png_chunk(bytes: &Vec<u8>, i: usize) -> (r: bool)
    requires
        i < bytes.len(),
    ensures
        r == png_chunk_stumbles(bytes@, i as int),
{
    let left = bytes.len() - i;
    if has_four(bytes, i, 0x50, 0x4C, 0x54, 0x45) {
        if i < 4 {
            false
        } else {
            let length = read_long(bytes, true, i - 4);
            length % 3 != 0 || length > 768
        }
    } else if has_four(bytes, i, 0x49, 0x48, 0x44, 0x52) {
        left >= 12 && (bytes[i + 4] != 0 || bytes[i + 8] != 0)
    } else if has_four(bytes, i, 0x61, 0x63, 0x54, 0x4C) {
        has_four(bytes, i + 4, 0xFF, 0xFF, 0xFF, 0xFF)
    } else {
        false
    }
}

/// Whether `bytes` hold no chunk that the PNG decoder can stumble over.
fn test_png(bytes: &Vec<u8>) -> (r: bool)
    ensures
        r == png_comes_back(bytes@),
{
    let mut i: usize = 0;
    while i < bytes.len()
        invariant
            i <= bytes.len(),
            forall|k: int| k < i ==> !#[trigger] png_chunk_stumbles(bytes@, k),
        decreases bytes.len() - i,
    {
        if test_png_chunk(bytes, i) {
            assert(png_chunk_stumbles(bytes@, i as int));
            return false;
        }
        i = i + 1;
    }
    true
}

// ---------------------------------------------------------------------------------------------
// JPEG
// ---------------------------------------------------------------------------------------------

/// Whether `bytes` are a JPEG file.
pub open spec fn is_jpeg(bytes: Seq<u8>) -> bool {
    bytes.len() >= 3 && bytes[0] == 0xFF && bytes[1] == 0xD8 && bytes[2] == 0xFF
}

/// Whether the header of a JPEG frame stands at position `i` of `bytes` that the decoder can stumble
/// over: one that is wider or higher than it can count blocks in, or a lossless one for whose
/// samples it keeps two bytes although one is expected.
pub open spec fn jpeg_frame_stumbles(bytes: Seq<u8>, i: int) -> bool {
    &&& 0 <= i
    &&& i + 9 < bytes.len()
    &&& bytes[i] == 0xFF
    &&& 0xC0 <= bytes[i + 1] <= 0xC3
    &&& {
        ||| pair(bytes[i + 5], bytes[i + 6]) > 65503
        ||| pair(bytes[i + 7], bytes[i + 8]) > 65503
        ||| bytes[i + 1] == 0xC3 && bytes[i + 4] != 8 && !(bytes[i + 9] == 1 && bytes[i + 4] > 8)
    }
}

/// Whether `bytes` hold no frame that the JPEG decoder can stumble over.
pub open spec fn jpeg_comes_back(bytes: Seq<u8>) -> bool {
    forall|i: int| !#[trigger] jpeg_frame_stumbles(bytes, i)
}

/// Whether `bytes` hold no frame that the JPEG decoder can stumble over.
fn test_jpeg(bytes: &Vec<u8>) -> (r: bool)
    ensures
        r == jpeg_comes_back(bytes@),
{
    let mut i: usize = 0;
    while i < bytes.len() && bytes.len() - i > 9
        invariant
            i <= bytes.len(),
            forall|k: int| k < i ==> !#[trigger] jpeg_frame_stumbles(bytes@, k),
        decreases bytes.len() - i,
    {
        if bytes[i] == 0xFF && bytes[i + 1] >= 0xC0 && bytes[i + 1] <= 0xC3 {
            let height = pair_of(bytes[i + 5], bytes[i + 6]);
            let width = pair_of(bytes[i + 7], bytes[i + 8]);
            let precision = bytes[i + 4];
            if height > 65503 || width > 65503 || bytes[i + 1] == 0xC3 && precision != 8 && !(bytes[i
                + 9] == 1 && precision > 8) {
                assert(jpeg_frame_stumbles(bytes@, i as int));
                return false;
            }
        }
        i = i + 1;
    }
    true
}

// ---------------------------------------------------------------------------------------------
// WebP
// ---------------------------------------------------------------------------------------------

/// Whether `bytes` are a WebP file.
pub open spec fn is_webp(bytes: Seq<u8>) -> bool {
    // RIFF, and after the length of the file WEBP
    four_at(bytes, 0, 0x52, 0x49, 0x46, 0x46) && four_at(bytes, 8, 0x57, 0x45, 0x42, 0x50)
}

/// Whether the pixels of the WebP file `bytes` are stored without loss: its first chunk is `VP8L`.
pub open spec fn webp_is_lossless(bytes: Seq<u8>) -> bool {
    four_at(bytes, 12, 0x56, 0x50, 0x38, 0x4C)
}

/// Whether the WebP file `bytes` is extended, and its canvas can be read: its first chunk is `VP8X`.
pub open spec fn webp_is_extended(bytes: Seq<u8>) -> bool {
    four_at(bytes, 12, 0x56, 0x50, 0x38, 0x58) && bytes.len() >= 30
}

/// The number in the three bytes at position `at`, lowest first, and one more.
pub open spec fn extent_at(bytes: Seq<u8>, at: int) -> int {
    bytes[at] + bytes[at + 1] * 256 + bytes[at + 2] * 65536 + 1
}

/// The extent of a lossy WebP frame in the two bytes at position `at`: their lower fourteen bits.
pub open spec fn frame_extent_at(bytes: Seq<u8>, at: int) -> int {
    pair(bytes[at + 1], bytes[at]) % 16384
}

/// Whether a chunk of the extended WebP file `bytes` stands at position `i` that the decoder can
/// stumble over: one whose contents are stored without loss (`VP8L`, or `ALPH` with compression),
/// or a frame (`VP8 ` or `ANMF`) that is not as large as the canvas.
pub open spec fn webp_chunk_stumbles(bytes: Seq<u8>, i: int) -> bool {
    ||| four_at(bytes, i, 0x56, 0x50, 0x38, 0x4C)
    ||| {
        &&& four_at(bytes, i, 0x41, 0x4C, 0x50, 0x48)
        &&& i + 9 <= bytes.len()
        &&& bytes[i + 8] % 4 == 1
    }
    ||| {
        &&& four_at(bytes, i, 0x41, 0x4E, 0x4D, 0x46)
        &&& i + 20 <= bytes.len()
        &&& extent_at(bytes, i + 14) != extent_at(bytes, 24) || extent_at(bytes, i + 17)
            != extent_at(bytes, 27)
    }
    ||| {
        &&& four_at(bytes, i, 0x56, 0x50, 0x38, 0x20)
        &&& i + 18 <= bytes.len()
        &&& frame_extent_at(bytes, i + 14) != extent_at(bytes, 24) || frame_extent_at(bytes, i + 16)
            != extent_at(bytes, 27)
    }
}

/// Whether the WebP file `bytes` holds nothing that the decoder can stumble over.
pub open spec fn webp_comes_back(bytes: Seq<u8>) -> bool {
    &&& !webp_is_lossless(bytes)
    &&& webp_is_extended(bytes) ==> forall|i: int| !#[trigger] webp_chunk_stumbles(bytes, i)
}

/// The number in the three bytes at position `at`, lowest first, and one more.
fn read_extent(bytes: &Vec<u8>, at: usize) -> (r: u32)
    requires
        at + 3 <= bytes.len(),
    ensures
        r == extent_at(bytes@, at as int),
{
    bytes[at] as u32 + bytes[at + 1] as u32 * 256 + bytes[at + 2] as u32 * 65536 + 1
}

/// The extent of a lossy WebP frame in the two bytes at position `at`.
fn read_frame_extent(bytes: &Vec<u8>, at: usize) -> (r: u32)
    requires
        at + 2 <= bytes.len(),
    ensures
        r == frame_extent_at(bytes@, at as int),
{
    pair_of(bytes[at + 1], bytes[at]) % 16384
}

/// Whether a chunk stands at position `i` of `bytes` that the WebP decoder can stumble over.
fn test_webp_chunk(bytes: &Vec<u8>, i: usize) -> (r: bool)
    requires
        bytes.len() >= 30,
        i < bytes.len(),
    ensures
        r == webp_chunk_stumbles(bytes@, i as int),
{
    let left = bytes.len() - i;
    let width = read_extent(bytes, 24);
    let height = read_extent(bytes, 27);
    if has_four(bytes, i, 0x56, 0x50, 0x38, 0x4C) {
        true
    } else if has_four(bytes, i, 0x41, 0x4C, 0x50, 0x48) {
        left >= 9 && bytes[i + 8] % 4 == 1
    } else if has_four(bytes, i, 0x41, 0x4E, 0x4D, 0x46) {
        left >= 20 && (read_extent(bytes, i + 14) != width || read_extent(bytes, i + 17) != height)
    } else if has_four(bytes, i, 0x56, 0x50, 0x38, 0x20) {
        left >= 18 && (read_frame_extent(bytes, i + 14) != width || read_frame_extent(bytes, i + 16)
            != height)
    } else {
        false
    }
}

/// Whether the WebP file `bytes` holds nothing that the decoder can stumble over.
fn test_webp(bytes: &Vec<u8>) -> (r: bool)
    ensures
        r == webp_comes_back(bytes@),
{
    if has_four(bytes, 12, 0x56, 0x50, 0x38, 0x4C) {
        return false;
    }
    if !has_four(bytes, 12, 0x56, 0x50, 0x38, 0x58) || bytes.len() < 30 {
        return true;
    }
    let mut i: usize = 0;
    while i < bytes.len()
        invariant
            bytes.len() >= 30,
            webp_is_extended(bytes@),
            i <= bytes.len(),
            forall|k: int| k < i ==> !#[trigger] webp_chunk_stumbles(bytes@, k),
        decreases bytes.len() - i,
    {
        if test_webp_chunk(bytes, i) {
            assert(webp_chunk_stumbles(bytes@, i as int));
            return false;
        }
        i = i + 1;
    }
    true
}

// ---------------------------------------------------------------------------------------------
// TIFF
// ---------------------------------------------------------------------------------------------

/// Whether `bytes` are a TIFF file whose numbers have their upper byte first.
pub open spec fn is_big_tiff(bytes: Seq<u8>) -> bool {
    four_at(bytes, 0, 0x4D, 0x4D, 0x00, 0x2A)
}

/// Whether `bytes` are a TIFF file whose numbers have their lower byte first.
pub open spec fn is_little_tiff(bytes: Seq<u8>) -> bool {
    four_at(bytes, 0, 0x49, 0x49, 0x2A, 0x00)
}

/// Where the first directory of the TIFF file `bytes` starts.
pub open spec fn directory_at(bytes: Seq<u8>, big: bool) -> int {
    long_at(bytes, big, 4)
}

/// The number of entries in the first directory of the TIFF file `bytes`, none where it lies outside
/// of the file.
pub open spec fn directory_len(bytes: Seq<u8>, big: bool) -> int {
    if bytes.len() < 8 || directory_at(bytes, big) + 2 > bytes.len() {
        0
    } else {
        short_at(bytes, big, directory_at(bytes, big))
    }
}

/// Where the entry `k` of the first directory of the TIFF file `bytes` starts.
pub open spec fn entry_at(bytes: Seq<u8>, big: bool, k: int) -> int {
    directory_at(bytes, big) + 2 + 12 * k
}

/// Whether the bytes from position `at` on are an entry for `tag` that is something else than one
/// short number from `low` to `high`.
pub open spec fn entry_strays(bytes: Seq<u8>, big: bool, at: int, tag: int, low: int, high: int) -> bool {
    &&& at + 12 <= bytes.len()
    &&& short_at(bytes, big, at) == tag
    &&& {
        ||| short_at(bytes, big, at + 2) != 3
        ||| long_at(bytes, big, at + 4) != 1
        ||| short_at(bytes, big, at + 8) < low
        ||| short_at(bytes, big, at + 8) > high
    }
}

/// Whether the entry `k` of the first directory of the TIFF file `bytes` strays.
pub open spec fn directory_strays(
    bytes: Seq<u8>,
    big: bool,
    k: int,
    tag: int,
    low: int,
    high: int,
) -> bool {
    entry_strays(bytes, big, entry_at(bytes, big, k), tag, low, high)
}

/// Whether each entry for `tag` in the first directory of the TIFF file `bytes` is one short number
/// from `low` to `high`. Where `low` is above `high`, there is no such entry.
pub open spec fn tag_within(bytes: Seq<u8>, big: bool, tag: int, low: int, high: int) -> bool {
    forall|k: int|
        0 <= k < directory_len(bytes, big) ==> !#[trigger] directory_strays(
            bytes,
            big,
            k,
            tag,
            low,
            high,
        )
}

/// Whether the TIFF file `bytes` holds nothing that the decoder can stumble over: its samples are
/// not kept in planes (284), or there is one sample per pixel (277); it is not compressed as JPEG
/// (259); and where it is cut into tiles (322 and 323), its width and height (256 and 257) and
/// theirs are short numbers.
pub open spec fn tiff_comes_back(bytes: Seq<u8>, big: bool) -> bool {
    &&& tag_within(bytes, big, 284, 1, 1) || tag_within(bytes, big, 277, 1, 1)
    &&& tag_within(bytes, big, 259, 0, 6) || tag_within(bytes, big, 259, 8, 65535)
    &&& tag_within(bytes, big, 322, 1, 0) || {
        &&& tag_within(bytes, big, 322, 0, 65535)
        &&& tag_within(bytes, big, 323, 0, 65535)
        &&& tag_within(bytes, big, 256, 0, 65535)
        &&& tag_within(bytes, big, 257, 0, 65535)
    }
}

/// Whether the entry at position `at` strays.
fn test_entry(bytes: &Vec<u8>, big: bool, at: usize, tag: u32, low: u32, high: u32) -> (r: bool)
    requires
        at + 12 <= bytes.len(),
    ensures
        r == entry_strays(bytes@, big, at as int, tag as int, low as int, high as int),
{
    if read_short(bytes, big, at) != tag {
        return false;
    }
    let value = read_short(bytes, big, at + 8);
    read_short(bytes, big, at + 2) != 3 || read_long(bytes, big, at + 4) != 1 || value < low || value
        > high
}

/// Whether each entry for `tag` is one short number from `low` to `high`.
fn test_tag(bytes: &Vec<u8>, big: bool, tag: u32, low: u32, high: u32) -> (r: bool)
    ensures
        r == tag_within(bytes@, big, tag as int, low as int, high as int),
{
    if bytes.len() < 8 {
        return true;
    }
    let start = read_long(bytes, big, 4) as usize;
    if start > bytes.len() || bytes.len() - start < 2 {
        return true;
    }
    let count = read_short(bytes, big, start);
    let mut k: u32 = 0;
    let mut at: usize = start + 2;
    while k < count && bytes.len() - at >= 12
        invariant
            k <= count,
            count == directory_len(bytes@, big),
            at == entry_at(bytes@, big, k as int),
            at <= bytes.len(),
            forall|j: int|
                0 <= j < k ==> !#[trigger] directory_strays(
                    bytes@,
                    big,
                    j,
                    tag as int,
                    low as int,
                    high as int,
                ),
        decreases count - k,
    {
        if test_entry(bytes, big, at, tag, low, high) {
            assert(directory_strays(bytes@, big, k as int, tag as int, low as int, high as int));
            return false;
        }
        assert(!directory_strays(bytes@, big, k as int, tag as int, low as int, high as int));
        at = at + 12;
        k = k + 1;
    }
    true
}

/// Whether the TIFF file `bytes` holds nothing that the decoder can stumble over.
fn test_tiff(bytes: &Vec<u8>, big: bool) -> (r: bool)
    ensures
        r == tiff_comes_back(bytes@, big),
{
    (test_tag(bytes, big, 284, 1, 1) || test_tag(bytes, big, 277, 1, 1)) && (test_tag(
        bytes,
        big,
        259,
        0,
        6,
    ) || test_tag(bytes, big, 259, 8, 65535)) && (test_tag(bytes, big, 322, 1, 0) || (test_tag(
        bytes,
        big,
        322,
        0,
        65535,
    ) && test_tag(bytes, big, 323, 0, 65535) && test_tag(bytes, big, 256, 0, 65535) && test_tag(
        bytes,
        big,
        257,
        0,
        65535,
    )))
}

// ---------------------------------------------------------------------------------------------
// Radiance
// ---------------------------------------------------------------------------------------------

/// Whether `bytes` are a Radiance file: they start with `#?RADIANCE`.
pub open spec fn is_radiance(bytes: Seq<u8>) -> bool {
    &&& four_at(bytes, 0, 0x23, 0x3F, 0x52, 0x41)
    &&& four_at(bytes, 4, 0x44, 0x49, 0x41, 0x4E)
    &&& bytes.len() >= 10
    &&& bytes[8] == 0x43
    &&& bytes[9] == 0x45
}

/// Whether a mark for a run of equal pixels stands at position `i` of the Radiance file `bytes`.
pub open spec fn run_at(bytes: Seq<u8>, i: int) -> bool {
    &&& 0 <= i
    &&& i + 3 <= bytes.len()
    &&& bytes[i] == 1
    &&& bytes[i + 1] == 1
    &&& bytes[i + 2] == 1
}

/// Whether four marks for runs follow each other from position `i` on: each counts 256 times as much
/// as the one before it, and the decoder can lose count.
pub open spec fn runs_stumble(bytes: Seq<u8>, i: int) -> bool {
    run_at(bytes, i) && run_at(bytes, i + 4) && run_at(bytes, i + 8) && run_at(bytes, i + 12)
}

/// Whether there are nowhere four marks for runs in a row.
pub open spec fn radiance_comes_back(bytes: Seq<u8>) -> bool {
    forall|i: int| !#[trigger] runs_stumble(bytes, i)
}

/// Whether a mark for a run stands at position `i` of `bytes`.
fn has_run(bytes: &Vec<u8>, i: usize) -> (r: bool)
    ensures
        r == run_at(bytes@, i as int),
{
    i < bytes.len() && bytes.len() - i >= 3 && bytes[i] == 1 && bytes[i + 1] == 1 && bytes[i + 2] == 1
}

/// Whether there are nowhere four marks for runs in a row.
fn test_radiance(bytes: &Vec<u8>) -> (r: bool)
    ensures
        r == radiance_comes_back(bytes@),
{
    let mut i: usize = 0;
    while i < bytes.len() && bytes.len() - i >= 15
        invariant
            i <= bytes.len(),
            forall|k: int| k < i ==> !#[trigger] runs_stumble(bytes@, k),
        decreases bytes.len() - i,
    {
        if has_run(bytes, i) && has_run(bytes, i + 4) && has_run(bytes, i + 8) && has_run(
            bytes,
            i + 12,
        ) {
            assert(runs_stumble(bytes@, i as int));
            return false;
        }
        i = i + 1;
    }
    true
}

// ---------------------------------------------------------------------------------------------
// Bitmaps of one bit per pixel
// ---------------------------------------------------------------------------------------------

/// Whether `bytes` are a binary portable bitmap: they start with `P4`.
pub open spec fn is_bitmap(bytes: Seq<u8>) -> bool {
    bytes.len() >= 2 && bytes[0] == 0x50 && bytes[1] == 0x34
}

/// Whether the byte `b` is a space between two numbers.
pub open spec fn is_gap(b: u8) -> bool {
    b == 0x20 || 0x09 <= b <= 0x0D
}

/// Whether a number of at most nine digits stands in front of position `k` of `bytes`, right after
/// the first space.
pub open spec fn width_ends(bytes: Seq<u8>, k: int) -> bool {
    &&& 4 <= k <= 12
    &&& k < bytes.len()
    &&& is_gap(bytes[2])
    &&& is_gap(bytes[k])
    &&& forall|j: int| 3 <= j < k ==> 0x30 <= #[trigger] bytes[j] <= 0x39
}

/// Whether the width of the bitmap `bytes` stands right at its start and has at most nine digits, so
/// that the decoder can count the bits of a row.
pub open spec fn bitmap_comes_back(bytes: Seq<u8>) -> bool {
    exists|k: int| #[trigger] width_ends(bytes, k)
}

/// Whether the byte `b` is a space between two numbers.
fn has_gap(b: u8) -> (r: bool)
    ensures
        r == is_gap(b),
{
    b == 0x20 || (0x09 <= b && b <= 0x0D)
}

/// Whether the width of the bitmap `bytes` stands right at its start and has at most nine digits.
fn test_bitmap(bytes: &Vec<u8>) -> (r: bool)
    ensures
        r == bitmap_comes_back(bytes@),
{
    if bytes.len() < 4 || !has_gap(bytes[2]) {
        return false;
    }
    let mut k: usize = 3;
    while k < bytes.len() && k <= 12 && 0x30 <= bytes[k] && bytes[k] <= 0x39
        invariant
            3 <= k <= 13,
            k <= bytes.len(),
            forall|j: int| 3 <= j < k ==> 0x30 <= #[trigger] bytes@[j] <= 0x39,
        decreases bytes.len() - k,
    {
        k = k + 1;
    }
    if k < bytes.len() && 4 <= k && k <= 12 && has_gap(bytes[k]) {
        assert(width_ends(bytes@, k as int));
        true
    } else {
        assert forall|m: int| !#[trigger] width_ends(bytes@, m) by {
            if width_ends(bytes@, m) {
                if m < k {
                    assert(0x30 <= bytes@[m] <= 0x39);
                } else if k < m {
                    assert(0x30 <= bytes@[k as int] <= 0x39);
                }
            }
        }
        false
    }
}

// ---------------------------------------------------------------------------------------------
// All formats
// ---------------------------------------------------------------------------------------------

/// Whether `bytes` are an OpenEXR file.
pub open spec fn is_openexr(bytes: Seq<u8>) -> bool {
    four_at(bytes, 0, 0x76, 0x2F, 0x31, 0x01)
}

/// A condition under which `image::load_from_memory` and `to_rgba8` come back from `bytes`, with a
/// picture or with an error, and do not panic. It does not hold of:
///
/// - PNG palettes whose length is no multiple of three or is above 768, and PNG pictures of 16777216
///   pixels or more in a direction, also inside of an ICO file;
/// - JPEG frames that are larger than 65503 pixels in a direction, and lossless ones whose samples
///   are kept in two bytes each;
/// - lossless WebP pictures and compressed opacity in WebP pictures: how their pixels are changed
///   back is said in the compressed data, in an order that can make the decoder read behind its
///   end;
/// - WebP frames that are not as large as their canvas;
/// - TIFF pictures in planes of samples, those compressed as JPEG, and tiles whose numbers do not
///   fit 16 bits;
/// - Radiance pictures with four marks for runs in a row;
/// - binary portable bitmaps whose width does not stand right at their start, or has ten digits or
///   more;
/// - OpenEXR pictures: a sample that is no number makes `to_rgba8` panic, and it can stand
///   anywhere in the compressed data.
///
/// Most of these files are decoded nevertheless. The decoders for GIF, BMP, DDS, QOI, farbfeld and
/// the other portable pixmaps come back from all bytes. There is no decoder for AVIF, and bytes of
/// no known format are not decoded.
pub open spec fn decoder_comes_back(bytes: Seq<u8>) -> bool {
    &&& is_png(bytes) || is_ico(bytes) ==> png_comes_back(bytes)
    &&& is_jpeg(bytes) ==> jpeg_comes_back(bytes)
    &&& is_webp(bytes) ==> webp_comes_back(bytes)
    &&& is_big_tiff(bytes) ==> tiff_comes_back(bytes, true)
    &&& is_little_tiff(bytes) ==> tiff_comes_back(bytes, false)
    &&& is_radiance(bytes) ==> radiance_comes_back(bytes)
    &&& is_bitmap(bytes) ==> bitmap_comes_back(bytes)
    &&& !is_openexr(bytes)
}

/// Whether `bytes` can be handed to the decoders without a panic.
pub fn can_decode(bytes: &Vec<u8>) -> (r: bool)
    ensures
        r == decoder_comes_back(bytes@),
{
    let png = has_four(bytes, 0, 0x89, 0x50, 0x4E, 0x47) && has_four(bytes, 4, 0x0D, 0x0A, 0x1A, 0x0A);
    let ico = has_four(bytes, 0, 0x00, 0x00, 0x01, 0x00);
    if png || ico {
        test_png(bytes)
    } else if bytes.len() >= 3 && bytes[0] == 0xFF && bytes[1] == 0xD8 && bytes[2] == 0xFF {
        test_jpeg(bytes)
    } else if has_four(bytes, 0, 0x52, 0x49, 0x46, 0x46) && has_four(
        bytes,
        8,
        0x57,
        0x45,
        0x42,
        0x50,
    ) {
        test_webp(bytes)
    } else if has_four(bytes, 0, 0x4D, 0x4D, 0x00, 0x2A) {
        test_tiff(bytes, true)
    } else if has_four(bytes, 0, 0x49, 0x49, 0x2A, 0x00) {
        test_tiff(bytes, false)
    } else if has_four(bytes, 0, 0x23, 0x3F, 0x52, 0x41) && has_four(
        bytes,
        4,
        0x44,
        0x49,
        0x41,
        0x4E,
    ) && bytes.len() >= 10 && bytes[8] == 0x43 && bytes[9] == 0x45 {
        test_radiance(bytes)
    } else if bytes.len() >= 2 && bytes[0] == 0x50 && bytes[1] == 0x34 {
        test_bitmap(bytes)
    } else {
        !has_four(bytes, 0, 0x76, 0x2F, 0x31, 0x01)
    }
}

/// Whether `bytes` are of a format that is decoded in whole numbers alone, so that every processor
/// finds the same pixels: PNG, GIF, BMP, ICO, WebP, DDS, QOI or farbfeld.
pub open spec fn decoded_in_integers(bytes: Seq<u8>) -> bool {
    ||| is_png(bytes)
    ||| four_at(bytes, 0, 0x47, 0x49, 0x46, 0x38) && bytes.len() >= 6 && (bytes[4] == 0x37 || bytes[4]
        == 0x39) && bytes[5] == 0x61
    ||| bytes.len() >= 2 && bytes[0] == 0x42 && bytes[1] == 0x4D
    ||| is_ico(bytes)
    ||| is_webp(bytes)
    ||| four_at(bytes, 0, 0x44, 0x44, 0x53, 0x20)
    ||| four_at(bytes, 0, 0x71, 0x6F, 0x69, 0x66)
    ||| four_at(bytes, 0, 0x66, 0x61, 0x72, 0x62) && four_at(bytes, 4, 0x66, 0x65, 0x6C, 0x64)
}

/// All files of the formats that are decoded in whole numbers alone can be handed to the decoders, but
/// for the PNG, ICO and WebP files that these can stumble over.
pub proof fn law_integers_can_be_decoded(bytes: Seq<u8>)
    requires
        decoded_in_integers(bytes),
        is_png(bytes) || is_ico(bytes) ==> png_comes_back(bytes),
        is_webp(bytes) ==> webp_comes_back(bytes),
    ensures
        decoder_comes_back(bytes),
{
}

/// Whether `bytes` begin with `start`.
pub open spec fn begins_with(bytes: Seq<u8>, start: Seq<u8>) -> bool {
    bytes.len() >= start.len() && forall|k: int| 0 <= k < start.len() ==> bytes[k] == #[trigger] start[k]
}

/// What begins like no format whose decoder can panic can be handed to the decoders.
pub proof fn law_other_files_can_be_decoded(bytes: Seq<u8>)
    requires
        !begins_with(bytes, seq![0x89u8, 0x50, 0x4E, 0x47, 0x0D, 0x0A, 0x1A, 0x0A]),
        !begins_with(bytes, seq![0x00u8, 0x00, 0x01, 0x00]),
        !begins_with(bytes, seq![0xFFu8, 0xD8, 0xFF]),
        !begins_with(bytes, seq![0x52u8, 0x49, 0x46, 0x46]),
        !begins_with(bytes, seq![0x4Du8, 0x4D, 0x00, 0x2A]),
        !begins_with(bytes, seq![0x49u8, 0x49, 0x2A, 0x00]),
        !begins_with(bytes, seq![0x23u8, 0x3F, 0x52, 0x41, 0x44, 0x49, 0x41, 0x4E, 0x43, 0x45]),
        !begins_with(bytes, seq![0x50u8, 0x34]),
        !begins_with(bytes, seq![0x76u8, 0x2F, 0x31, 0x01]),
    ensures
        decoder_comes_back(bytes),
{
}

/// Whether no chunk begins at position `i` that is a palette of a length that is no multiple of three or
/// is above 768, a header of 16777216 pixels or more in a direction, or an animation of as many frames
/// as 32 bits can count.
pub open spec fn chunk_is_sound(bytes: Seq<u8>, i: int) -> bool {
    0 <= i && i + 4 <= bytes.len() ==> {
        let n = bytes.len();
        let (a, b, c, d) = (bytes[i], bytes[i + 1], bytes[i + 2], bytes[i + 3]);
        &&& a == 0x50 && b == 0x4C && c == 0x54 && d == 0x45 && i >= 4 ==> {
            let length = bytes[i - 4] * 16777216 + bytes[i - 3] * 65536 + bytes[i - 2] * 256 + bytes[i - 1];
            length % 3 == 0 && length <= 768
        }
        &&& a == 0x49 && b == 0x48 && c == 0x44 && d == 0x52 && i + 12 <= n ==> bytes[i + 4] == 0 && bytes[i
            + 8] == 0
        &&& a == 0x61 && b == 0x63 && c == 0x54 && d == 0x4C && i + 8 <= n ==> !(bytes[i + 4] == 0xFF
            && bytes[i + 5] == 0xFF && bytes[i + 6] == 0xFF && bytes[i + 7] == 0xFF)
    }
}

/// A PNG or ICO file can be handed to the decoders exactly where all its chunks are sound.
pub proof fn law_png_files(bytes: Seq<u8>)
    requires
        begins_with(bytes, seq![0x89u8, 0x50, 0x4E, 0x47, 0x0D, 0x0A, 0x1A, 0x0A]) || begins_with(
            bytes,
            seq![0x00u8, 0x00, 0x01, 0x00],
        ),
    ensures
        decoder_comes_back(bytes) <==> forall|i: int| #[trigger] chunk_is_sound(bytes, i),
{
    let ico = seq![0x00u8, 0x00, 0x01, 0x00];
    let png = seq![0x89u8, 0x50, 0x4E, 0x47, 0x0D, 0x0A, 0x1A, 0x0A];
    if begins_with(bytes, ico) {
        assert(bytes[0] == ico[0] && bytes[1] == ico[1] && bytes[2] == ico[2] && bytes[3] == ico[3]);
    } else {
        assert(bytes[0] == png[0] && bytes[1] == png[1] && bytes[2] == png[2] && bytes[3] == png[3]);
        assert(bytes[4] == png[4] && bytes[5] == png[5] && bytes[6] == png[6] && bytes[7] == png[7]);
    }
    assert(decoder_comes_back(bytes) == png_comes_back(bytes));
    assert forall|i: int| #[trigger] chunk_is_sound(bytes, i) == !png_chunk_stumbles(bytes, i) by {
        lemma_chunk(bytes, i);
    }
    if png_comes_back(bytes) {
        assert forall|i: int| #[trigger] chunk_is_sound(bytes, i) by {
            assert(!png_chunk_stumbles(bytes, i));
        }
    } else {
        let i = choose|i: int| #[trigger] png_chunk_stumbles(bytes, i);
        assert(!chunk_is_sound(bytes, i));
    }
}

proof fn lemma_chunk(bytes: Seq<u8>, i: int)
    ensures
        chunk_is_sound(bytes, i) == !png_chunk_stumbles(bytes, i),
{
    if 4 <= i && i + 4 <= bytes.len() {
        let length = bytes[i - 4] * 16777216 + bytes[i - 3] * 65536 + bytes[i - 2] * 256 + bytes[i - 1];
        assert(long_at(bytes, true, i - 4) == length);
    }
}

/// Whether no frame begins at position `i` that has more than 65503 pixels in a direction, or is a
/// lossless one whose samples do not have eight bits and are not those of a single, deeper component.
pub open spec fn frame_is_sound(bytes: Seq<u8>, i: int) -> bool {
    0 <= i && i + 9 < bytes.len() && bytes[i] == 0xFF && 0xC0 <= bytes[i + 1] <= 0xC3 ==> {
        &&& bytes[i + 5] * 256 + bytes[i + 6] <= 65503
        &&& bytes[i + 7] * 256 + bytes[i + 8] <= 65503
        &&& bytes[i + 1] == 0xC3 && bytes[i + 4] != 8 ==> bytes[i + 9] == 1 && bytes[i + 4] > 8
    }
}

/// A JPEG file can be handed to the decoders exactly where all its frames are sound.
pub proof fn law_jpeg_files(bytes: Seq<u8>)
    requires
        begins_with(bytes, seq![0xFFu8, 0xD8, 0xFF]),
    ensures
        decoder_comes_back(bytes) <==> forall|i: int| #[trigger] frame_is_sound(bytes, i),
{
    let start = seq![0xFFu8, 0xD8, 0xFF];
    assert(bytes[0] == start[0] && bytes[1] == start[1] && bytes[2] == start[2]);
    assert(decoder_comes_back(bytes) == jpeg_comes_back(bytes));
    if jpeg_comes_back(bytes) {
        assert forall|i: int| #[trigger] frame_is_sound(bytes, i) by {
            assert(!jpeg_frame_stumbles(bytes, i));
        }
    } else {
        let i = choose|i: int| #[trigger] jpeg_frame_stumbles(bytes, i);
        assert(!frame_is_sound(bytes, i));
    }
}

/// A WebP file is not handed to the decoders where it is stored without loss (`VP8L`), and is where it is
/// neither that nor extended (`VP8X`). No OpenEXR file is.
pub proof fn law_webp_and_openexr_files(bytes: Seq<u8>)
    ensures
        begins_with(bytes, seq![0x52u8, 0x49, 0x46, 0x46]) && bytes.len() >= 16 && bytes[8] == 0x57
            && bytes[9] == 0x45 && bytes[10] == 0x42 && bytes[11] == 0x50 && bytes[12] == 0x56 && bytes[13]
            == 0x50 && bytes[14] == 0x38 ==> {
            &&& bytes[15] == 0x4C ==> !decoder_comes_back(bytes)
            &&& bytes[15] != 0x4C && bytes[15] != 0x58 ==> decoder_comes_back(bytes)
        },
        begins_with(bytes, seq![0x76u8, 0x2F, 0x31, 0x01]) ==> !decoder_comes_back(bytes),
{
    let webp = seq![0x52u8, 0x49, 0x46, 0x46];
    let exr = seq![0x76u8, 0x2F, 0x31, 0x01];
    if begins_with(bytes, webp) {
        assert(bytes[0] == webp[0] && bytes[1] == webp[1] && bytes[2] == webp[2] && bytes[3] == webp[3]);
    }
    if begins_with(bytes, exr) {
        assert(bytes[0] == exr[0] && bytes[1] == exr[1] && bytes[2] == exr[2] && bytes[3] == exr[3]);
    }
}

} // verus!
