//! Kitty graphics protocol framing: escape sequences that carry an image.
use vstd::prelude::*;
use vstd::string::StringSliceAdditionalSpecFns;
use crate::pixels::RgbaImage;
use base64::Engine;

verus! {

/// Bytes of base64 payload carried by one escape sequence.
pub const CHUNK_SIZE: usize = 4096;

/// `ESC _ G`: opens a graphics escape sequence.
pub open spec fn apc_open() -> Seq<u8> {
    seq![0x1bu8, 0x5fu8, 0x47u8]
}

/// `ESC \`: closes a graphics escape sequence.
pub open spec fn apc_close() -> Seq<u8> {
    seq![0x1bu8, 0x5cu8]
}

/// `m=0;` on the last chunk, `m=1;` on the others.
pub open spec fn more_flag(last: bool) -> Seq<u8> {
    seq![0x6du8, 0x3du8, if last { 0x30u8 } else { 0x31u8 }, 0x3bu8]
}

/// Number of chunks a non-empty payload of `len` bytes is cut into.
pub open spec fn chunk_count(len: int) -> int {
    len / (CHUNK_SIZE as int) + if len % (CHUNK_SIZE as int) != 0 {
        1int
    } else {
        0
    }
}

/// The `i`-th window of `CHUNK_SIZE` bytes of `data` (the last may be shorter).
pub open spec fn window(data: Seq<u8>, i: int) -> Seq<u8> {
    let start = i * CHUNK_SIZE;
    let end = if (i + 1) * CHUNK_SIZE <= data.len() {
        (i + 1) * CHUNK_SIZE
    } else {
        data.len() as int
    };
    data.subrange(start, end)
}

/// The `i`-th of `n` escape sequences: the first carries the header and a
/// comma, every one its more-flag and its window of the payload.
pub open spec fn kitty_chunk(header: Seq<u8>, data: Seq<u8>, i: int, n: int) -> Seq<u8> {
    apc_open() + (if i == 0 {
        header.push(0x2cu8)
    } else {
        seq![]
    }) + more_flag(i == n - 1) + window(data, i) + apc_close()
}

/// The escape sequences that carry `data` under `header`. An empty payload
/// still gets one sequence, holding the header and `m=0;`.
pub open spec fn kitty_chunks(header: Seq<u8>, data: Seq<u8>) -> Seq<Seq<u8>> {
    if data.len() == 0 {
        seq![apc_open() + header + seq![0x2cu8] + more_flag(true) + apc_close()]
    } else {
        let n = chunk_count(data.len() as int);
        Seq::new(n as nat, |i: int| kitty_chunk(header, data, i, n))
    }
}

/// The contents of each byte vector.
pub open spec fn byte_rows(v: Seq<Vec<u8>>) -> Seq<Seq<u8>> {
    v.map_values(|c: Vec<u8>| c@)
}

/// Appends the bytes of `s` to `v`.
pub fn push_all(v: &mut Vec<u8>, s: &[u8])
    ensures
        final(v)@ == old(v)@ + s@,
{
    let mut i: usize = 0;
    while i < s.len()
        invariant
            i <= s@.len(),
            v@ == old(v)@ + s@.subrange(0, i as int),
        decreases s@.len() - i,
    {
        v.push(s[i]);
        i = i + 1;
        assert(v@ =~= old(v)@ + s@.subrange(0, i as int));
    }
    assert(s@.subrange(0, s@.len() as int) =~= s@);
}

fn push_apc_open(v: &mut Vec<u8>)
    ensures
        final(v)@ == old(v)@ + apc_open(),
{
    v.push(0x1b);
    v.push(0x5f);
    v.push(0x47);
    assert(v@ =~= old(v)@ + apc_open());
}

fn push_apc_close(v: &mut Vec<u8>)
    ensures
        final(v)@ == old(v)@ + apc_close(),
{
    v.push(0x1b);
    v.push(0x5c);
    assert(v@ =~= old(v)@ + apc_close());
}

fn push_more_flag(v: &mut Vec<u8>, last: bool)
    ensures
        final(v)@ == old(v)@ + more_flag(last),
{
    v.push(0x6d);
    v.push(0x3d);
    v.push(if last { 0x30 } else { 0x31 });
    v.push(0x3b);
    assert(v@ =~= old(v)@ + more_flag(last));
}

/// Appends `data[start..end]` to `v`.
fn push_range(v: &mut Vec<u8>, data: &[u8], start: usize, end: usize)
    requires
        start <= end <= data@.len(),
    ensures
        final(v)@ == old(v)@ + data@.subrange(start as int, end as int),
{
    let mut i: usize = start;
    while i < end
        invariant
            start <= i <= end,
            end <= data@.len(),
            v@ == old(v)@ + data@.subrange(start as int, i as int),
        decreases end - i,
    {
        v.push(data[i]);
        i = i + 1;
        assert(v@ =~= old(v)@ + data@.subrange(start as int, i as int));
    }
}

/// Cuts a base64 payload into Kitty escape sequences of at most `CHUNK_SIZE`
/// payload bytes each; the first carries `header`, every one but the last says
/// `m=1` (more to come), the last `m=0`.
pub fn chunk_kitty_payload(header: &str, base64_data: &[u8]) -> (chunks: Vec<Vec<u8>>)
    ensures
        byte_rows(chunks@) == kitty_chunks(header.spec_bytes(), base64_data@),
{
    chunk_payload(header.as_bytes(), base64_data)
}

/// `chunk_kitty_payload` with the header given as bytes.
fn chunk_payload(hb: &[u8], base64_data: &[u8]) -> (chunks: Vec<Vec<u8>>)
    ensures
        byte_rows(chunks@) == kitty_chunks(hb@, base64_data@),
{
    if base64_data.len() == 0 {
        let mut seq: Vec<u8> = Vec::new();
        push_apc_open(&mut seq);
        push_all(&mut seq, hb);
        seq.push(0x2c);
        push_more_flag(&mut seq, true);
        push_apc_close(&mut seq);
        let mut chunks: Vec<Vec<u8>> = Vec::new();
        chunks.push(seq);
        proof {
            assert(seq@ =~= apc_open() + hb@ + seq![0x2cu8] + more_flag(true) + apc_close());
            assert(byte_rows(chunks@) =~= kitty_chunks(hb@, base64_data@));
        }
        return chunks;
    }
    let len = base64_data.len();
    let num_chunks = len / CHUNK_SIZE + if len % CHUNK_SIZE != 0 {
        1
    } else {
        0
    };
    let ghost n = chunk_count(len as int);
    let mut chunks: Vec<Vec<u8>> = Vec::new();
    let mut i: usize = 0;
    while i < num_chunks
        invariant
            len == base64_data@.len(),
            len > 0,
            num_chunks == n,
            n == chunk_count(len as int),
            i <= num_chunks,
            byte_rows(chunks@).len() == i,
            forall|j: int|
                0 <= j < i ==> #[trigger] byte_rows(chunks@)[j] == kitty_chunk(
                    hb@,
                    base64_data@,
                    j,
                    n,
                ),
        decreases num_chunks - i,
    {
        let is_last = i == num_chunks - 1;
        let start = i * CHUNK_SIZE;
        let end = if len - start >= CHUNK_SIZE {
            start + CHUNK_SIZE
        } else {
            len
        };
        let mut seq: Vec<u8> = Vec::new();
        push_apc_open(&mut seq);
        if i == 0 {
            push_all(&mut seq, hb);
            seq.push(0x2c);
        }
        push_more_flag(&mut seq, is_last);
        push_range(&mut seq, base64_data, start, end);
        push_apc_close(&mut seq);
        proof {
            assert(seq@ =~= kitty_chunk(hb@, base64_data@, i as int, n));
        }
        let ghost prev = byte_rows(chunks@);
        chunks.push(seq);
        assert(byte_rows(chunks@) =~= prev.push(seq@));
        i = i + 1;
    }
    assert(byte_rows(chunks@) =~= kitty_chunks(hb@, base64_data@));
    chunks
}

// ---------------------------------------------------------------------------
// Frames
// ---------------------------------------------------------------------------

/// The decimal digits of `n`, as ASCII bytes.
pub open spec fn decimal(n: nat) -> Seq<u8>
    decreases n,
{
    if n < 10 {
        seq![(48 + n) as u8]
    } else {
        decimal(n / 10).push((48 + n % 10) as u8)
    }
}

/// Appends the decimal digits of `n`.
pub fn push_decimal(v: &mut Vec<u8>, n: u64)
    ensures
        final(v)@ == old(v)@ + decimal(n as nat),
    decreases n,
{
    if n >= 10 {
        push_decimal(v, n / 10);
    }
    v.push((48 + n % 10) as u8);
    assert(v@ =~= old(v)@ + decimal(n as nat));
}

/// The transmit-and-display header for a `width` x `height` RGBA image:
/// `a=T,f=32,s=<width>,v=<height>,q=2,C=1` (raw 32-bit pixels, no replies, cursor
/// left in place).
pub open spec fn frame_header(width: nat, height: nat) -> Seq<u8> {
    "a=T,f=32,s=".spec_bytes() + decimal(width) + ",v=".spec_bytes() + decimal(height)
        + ",q=2,C=1".spec_bytes()
}

/// Before the image: save the cursor (DECSC), move it to the top-left corner,
/// and delete every image on screen.
pub open spec fn frame_prologue() -> Seq<u8> {
    "\x1b7".spec_bytes() + "\x1b[1;1H".spec_bytes() + "\x1b_Ga=d,d=a,q=2;\x1b\\".spec_bytes()
}

/// After the image: restore the cursor (DECRC).
pub open spec fn frame_epilogue() -> Seq<u8> {
    "\x1b8".spec_bytes()
}

/// The character of the 6-bit value `v` in the standard base64 alphabet:
/// `A`-`Z`, `a`-`z`, `0`-`9`, `+`, `/`.
pub open spec fn base64_char(v: int) -> u8 {
    if v < 26 {
        (65 + v) as u8
    } else if v < 52 {
        (97 + (v - 26)) as u8
    } else if v < 62 {
        (48 + (v - 52)) as u8
    } else if v == 62 {
        43u8
    } else {
        47u8
    }
}

/// Standard base64 of `data`: each group of three bytes becomes four
/// characters of six bits each; a last group of one or two bytes is padded
/// with `=` to four characters.
pub open spec fn base64_standard(data: Seq<u8>) -> Seq<u8>
    decreases data.len(),
{
    if data.len() == 0 {
        seq![]
    } else if data.len() == 1 {
        let b0 = data[0] as int;
        seq![base64_char(b0 / 4), base64_char((b0 % 4) * 16), 61u8, 61u8]
    } else if data.len() == 2 {
        let b0 = data[0] as int;
        let b1 = data[1] as int;
        seq![
            base64_char(b0 / 4),
            base64_char((b0 % 4) * 16 + b1 / 16),
            base64_char((b1 % 16) * 4),
            61u8,
        ]
    } else {
        let b0 = data[0] as int;
        let b1 = data[1] as int;
        let b2 = data[2] as int;
        seq![
            base64_char(b0 / 4),
            base64_char((b0 % 4) * 16 + b1 / 16),
            base64_char((b1 % 16) * 4 + b2 / 64),
            base64_char(b2 % 64),
        ] + base64_standard(data.subrange(3, data.len() as int))
    }
}

/// Length of the padded base64 encoding of `len` bytes.
pub open spec fn base64_len(len: nat) -> nat {
    4 * (len / 3) + if len % 3 > 0 {
        4nat
    } else {
        0
    }
}

/// Standard padded base64 encoding, by `base64::engine::general_purpose::STANDARD`
/// (`Engine::encode`). Claimed: the result is the standard encoding
/// (`base64_standard`, RFC 4648 with padding); `encode` panics when the padded
/// length overflows `usize`, hence the bound.
#[verifier::external_body]
fn base64_encode(data: &[u8]) -> (r: Vec<u8>)
    requires
        base64_len(data@.len()) <= usize::MAX,
    ensures
        r@ == base64_standard(data@),
{
    base64::engine::general_purpose::STANDARD.encode(data).into_bytes()
}

/// The RGBA bytes of a `width` x `height` image scaled to `new_width` x
/// `new_height` by `image::imageops::resize` with the nearest-neighbour filter.
pub uninterp spec fn nearest_resized(
    raw: Seq<u8>,
    width: u32,
    height: u32,
    new_width: u32,
    new_height: u32,
) -> Seq<u8>;

/// `image::imageops::resize(.., FilterType::Nearest)` on an RGBA image given by
/// its bytes. Claimed: the result is a function of the arguments alone, holds
/// `new_width x new_height` pixels of four bytes, and is a copy when the size is
/// unchanged. The bounds keep the crate's buffers (one of 16-byte float pixels,
/// one of byte pixels) within what a `Vec` can hold; beyond them it panics.
#[verifier::external_body]
fn resize_nearest(raw: &Vec<u8>, width: u32, height: u32, new_width: u32, new_height: u32) -> (r:
    Vec<u8>)
    requires
        raw@.len() == 4 * width * height,
        16 * width * new_height <= isize::MAX,
        4 * new_width * new_height <= isize::MAX,
    ensures
        r@ == nearest_resized(raw@, width, height, new_width, new_height),
        r@.len() == 4 * new_width * new_height,
        new_width == width && new_height == height ==> r@ == raw@,
{
    let img = image::RgbaImage::from_raw(width, height, raw.clone()).unwrap();
    image::imageops::resize(&img, new_width, new_height, image::imageops::FilterType::Nearest).into_raw()
}

/// The scale actually used: at least 1.
pub open spec fn effective_scale(scale: u32) -> nat {
    if scale == 0 {
        1
    } else {
        scale as nat
    }
}

/// The RGBA bytes that a frame carries: the image's, scaled up when the scale
/// is above 1.
pub open spec fn frame_pixels(img: RgbaImage, scale: u32) -> Seq<u8> {
    let s = effective_scale(scale);
    if s > 1 {
        nearest_resized(
            img.raw_bytes(),
            img.spec_width() as u32,
            img.spec_height() as u32,
            (img.spec_width() * s) as u32,
            (img.spec_height() * s) as u32,
        )
    } else {
        img.raw_bytes()
    }
}

/// The whole frame: prologue, the image as chunked escape sequences with a
/// header naming the (scaled) size, epilogue.
pub open spec fn frame_bytes(img: RgbaImage, scale: u32) -> Seq<u8> {
    let s = effective_scale(scale);
    frame_prologue() + kitty_chunks(
        frame_header(img.spec_width() * s, img.spec_height() * s),
        base64_standard(frame_pixels(img, scale)),
    ).flatten() + frame_epilogue()
}

/// Renders an image as one frame of terminal output: save the cursor, go to
/// the top-left corner, delete all images, transmit and show this one (scaled
/// by `scale`, nearest neighbour, at least 1), restore the cursor.
pub fn render_frame(img: &RgbaImage, scale: u32) -> (out: Vec<u8>)
    requires
        img.wf(),
        img.spec_width() * effective_scale(scale) <= u32::MAX,
        img.spec_height() * effective_scale(scale) <= u32::MAX,
        16 * img.spec_width() * img.spec_height() * effective_scale(scale) * effective_scale(scale)
            <= isize::MAX,
    ensures
        out@ == frame_bytes(*img, scale),
{
    let s = if scale < 1 {
        1
    } else {
        scale
    };
    let w = img.width();
    let h = img.height();
    let raw = img.as_raw();
    let (raw_rgba, width, height) = if s > 1 {
        let nw = w * s;
        let nh = h * s;
        proof {
            assert(16 * w * nh <= isize::MAX && 4 * nw * nh <= isize::MAX) by (nonlinear_arith)
                requires
                    nw == w * s,
                    nh == h * s,
                    s >= 1,
                    16 * w * h * s * s <= isize::MAX,
            ;
        }
        let scaled = resize_nearest(&raw, w, h, nw, nh);
        (scaled, nw, nh)
    } else {
        (raw, w, h)
    };
    proof {
        assert(raw_rgba@.len() <= isize::MAX) by (nonlinear_arith)
            requires
                raw_rgba@.len() == 4 * width * height,
                width == w * s,
                height == h * s,
                s >= 1,
                16 * w * h * s * s <= isize::MAX,
        ;
        assert(base64_len(raw_rgba@.len()) <= usize::MAX);
    }
    let b64 = base64_encode(raw_rgba.as_slice());
    let out = encoded_frame(width, height, b64.as_slice());
    assert(out@ =~= frame_bytes(*img, scale));
    out
}

/// The frame around an already encoded `width` x `height` image: save the
/// cursor, go to the top-left corner, delete all images, transmit `encoded`
/// (base64 RGBA) in chunks under the header for that size, restore the cursor.
pub fn encoded_frame(width: u32, height: u32, encoded: &[u8]) -> (out: Vec<u8>)
    ensures
        out@ == frame_prologue() + kitty_chunks(
            frame_header(width as nat, height as nat),
            encoded@,
        ).flatten() + frame_epilogue(),
{
    let mut header: Vec<u8> = Vec::new();
    push_all(&mut header, "a=T,f=32,s=".as_bytes());
    push_decimal(&mut header, width as u64);
    push_all(&mut header, ",v=".as_bytes());
    push_decimal(&mut header, height as u64);
    push_all(&mut header, ",q=2,C=1".as_bytes());

    let mut out: Vec<u8> = Vec::new();
    // save the cursor (DECSC)
    push_all(&mut out, "\x1b7".as_bytes());
    // move the cursor to the top-left corner
    push_all(&mut out, "\x1b[1;1H".as_bytes());
    // delete all images
    push_all(&mut out, "\x1b_Ga=d,d=a,q=2;\x1b\\".as_bytes());
    // transmit and display, chunked
    let chunks = chunk_payload(header.as_slice(), encoded);
    let ghost before = out@;
    let mut i: usize = 0;
    while i < chunks.len()
        invariant
            i <= chunks@.len(),
            out@ == before + byte_rows(chunks@).take(i as int).flatten(),
        decreases chunks@.len() - i,
    {
        push_all(&mut out, chunks[i].as_slice());
        proof {
            let rows = byte_rows(chunks@);
            assert(rows.take(i + 1) =~= rows.take(i as int).push(chunks@[i as int]@));
            rows.take(i as int).lemma_flatten_push(chunks@[i as int]@);
        }
        i = i + 1;
    }
    proof {
        assert(byte_rows(chunks@).take(chunks@.len() as int) =~= byte_rows(chunks@));
    }
    // restore the cursor (DECRC)
    push_all(&mut out, "\x1b8".as_bytes());
    proof {
        assert(header@ =~= frame_header(width as nat, height as nat));
        assert(out@ =~= frame_prologue() + kitty_chunks(
            frame_header(width as nat, height as nat),
            encoded@,
        ).flatten() + frame_epilogue());
    }
    out
}

// ---------------------------------------------------------------------------
// Laws of the chunking
// ---------------------------------------------------------------------------

/// The payload windows of the first `k` chunks.
pub open spec fn windows(data: Seq<u8>, k: int) -> Seq<Seq<u8>> {
    Seq::new(k as nat, |i: int| window(data, i))
}

proof fn lemma_windows_prefix(data: Seq<u8>, k: int)
    requires
        0 <= k,
        k * CHUNK_SIZE <= data.len(),
    ensures
        windows(data, k).flatten() == data.subrange(0, k * CHUNK_SIZE),
    decreases k,
{
    if k == 0 {
        assert(windows(data, 0) =~= Seq::<Seq<u8>>::empty());
        assert(data.subrange(0, 0) =~= Seq::<u8>::empty());
    } else {
        lemma_windows_prefix(data, k - 1);
        assert(windows(data, k) =~= windows(data, k - 1).push(window(data, k - 1)));
        windows(data, k - 1).lemma_flatten_push(window(data, k - 1));
        assert(data.subrange(0, k * CHUNK_SIZE) =~= data.subrange(0, (k - 1) * CHUNK_SIZE) + window(
            data,
            k - 1,
        ));
    }
}

/// Cutting loses nothing: the payload windows of the chunks, in order, make up
/// the whole payload, and none holds more than `CHUNK_SIZE` bytes.
pub proof fn law_windows_rebuild_payload(data: Seq<u8>)
    requires
        data.len() > 0,
    ensures
        windows(data, chunk_count(data.len() as int)).flatten() == data,
        forall|i: int|
            0 <= i < chunk_count(data.len() as int) ==> 1 <= #[trigger] window(data, i).len()
                <= CHUNK_SIZE,
{
    let n = chunk_count(data.len() as int);
    let len = data.len() as int;
    let full = len / (CHUNK_SIZE as int);
    assert(full * CHUNK_SIZE <= len && len < (full + 1) * CHUNK_SIZE) by (nonlinear_arith)
        requires
            full == len / 4096,
            len >= 0,
    ;
    lemma_windows_prefix(data, full);
    if n == full {
        assert(len == full * CHUNK_SIZE);
        assert(data.subrange(0, len) =~= data);
    } else {
        assert(windows(data, n) =~= windows(data, full).push(window(data, full)));
        windows(data, full).lemma_flatten_push(window(data, full));
        assert(data.subrange(0, full * CHUNK_SIZE) + window(data, full) =~= data);
    }
    assert forall|i: int| 0 <= i < n implies 1 <= #[trigger] window(data, i).len() <= CHUNK_SIZE by {
        assert(i * CHUNK_SIZE < len) by (nonlinear_arith)
            requires
                0 <= i < n,
                n == full + (if len % 4096 != 0 { 1int } else { 0 }),
                full == len / 4096,
                full * 4096 <= len,
                len >= 1,
        ;
    }
}

/// Every chunk is one complete escape sequence: it opens with `ESC _ G` and
/// closes with `ESC \`; exactly the last says `m=0`, and only the first holds
/// the header. There is always at least one chunk.
pub proof fn law_chunk_framing(header: Seq<u8>, data: Seq<u8>, i: int)
    requires
        0 <= i < kitty_chunks(header, data).len(),
    ensures
        kitty_chunks(header, data).len() >= 1,
        data.len() == 0 ==> kitty_chunks(header, data).len() == 1,
        data.len() > 0 ==> kitty_chunks(header, data).len() == chunk_count(data.len() as int),
        seq_starts_with(kitty_chunks(header, data)[i], apc_open()),
        seq_ends_with(kitty_chunks(header, data)[i], apc_close()),
        kitty_chunks(header, data)[i].subrange(3, 3 + header_part(header, i).len() as int)
            == header_part(header, i),
        kitty_chunks(header, data)[i].subrange(
            3 + header_part(header, i).len() as int,
            7 + header_part(header, i).len() as int,
        ) == more_flag(i == kitty_chunks(header, data).len() - 1),
{
    let c = kitty_chunks(header, data)[i];
    let h = header_part(header, i);
    if data.len() == 0 {
        assert(header + seq![0x2cu8] =~= header.push(0x2cu8));
        assert(c =~= apc_open() + h + more_flag(true) + apc_close());
    } else {
        assert(data.len() / 4096 >= 0);
        assert(c == kitty_chunk(header, data, i, chunk_count(data.len() as int)));
    }
    assert(c.subrange(0, 3) =~= apc_open());
    assert(c.subrange(c.len() - 2, c.len() as int) =~= apc_close());
    assert(c.subrange(3, 3 + h.len() as int) =~= h);
    assert(c.subrange(3 + h.len() as int, 7 + h.len() as int) =~= more_flag(
        i == kitty_chunks(header, data).len() - 1,
    ));
}

/// What the `i`-th chunk carries before its more-flag: the header and a comma
/// in the first chunk, nothing in the others.
pub open spec fn header_part(header: Seq<u8>, i: int) -> Seq<u8> {
    if i == 0 {
        header.push(0x2cu8)
    } else {
        seq![]
    }
}

pub open spec fn seq_starts_with(s: Seq<u8>, prefix: Seq<u8>) -> bool {
    prefix.len() <= s.len() && s.subrange(0, prefix.len() as int) == prefix
}

pub open spec fn seq_ends_with(s: Seq<u8>, suffix: Seq<u8>) -> bool {
    suffix.len() <= s.len() && s.subrange(s.len() - suffix.len(), s.len() as int) == suffix
}

/// A frame starts by saving the cursor and ends by restoring it.
pub proof fn law_frame_saves_and_restores_cursor(img: RgbaImage, scale: u32)
    ensures
        seq_starts_with(frame_bytes(img, scale), "\x1b7".spec_bytes()),
        seq_ends_with(frame_bytes(img, scale), "\x1b8".spec_bytes()),
{
    let f = frame_bytes(img, scale);
    let a = "\x1b7".spec_bytes();
    let z = "\x1b8".spec_bytes();
    let mid = "\x1b[1;1H".spec_bytes() + "\x1b_Ga=d,d=a,q=2;\x1b\\".spec_bytes() + kitty_chunks(
        frame_header(img.spec_width() * effective_scale(scale), img.spec_height() * effective_scale(scale)),
        base64_standard(frame_pixels(img, scale)),
    ).flatten();
    assert(f =~= a + mid + z);
    assert(f.subrange(0, a.len() as int) =~= a);
    assert(f.subrange(f.len() - z.len(), f.len() as int) =~= z);
}

/// The escape sequences of a payload start with `ESC _ G`, the header and a comma.
proof fn lemma_chunks_start(hdr: Seq<u8>, data: Seq<u8>)
    ensures
        seq_starts_with(kitty_chunks(hdr, data).flatten(), apc_open() + hdr.push(0x2cu8)),
{
    let cs = kitty_chunks(hdr, data);
    let start = apc_open() + hdr.push(0x2cu8);
    if data.len() == 0 {
        assert(cs.len() == 1);
        assert(cs[0].subrange(0, start.len() as int) =~= start);
    } else {
        let n = chunk_count(data.len() as int);
        assert(n >= 1) by {
            if data.len() % 4096 == 0 {
                assert(data.len() / 4096 >= 1) by (nonlinear_arith)
                    requires
                        data.len() > 0,
                        data.len() % 4096 == 0,
                ;
            }
        }
        assert(cs[0] == kitty_chunk(hdr, data, 0, n));
        assert(cs[0].subrange(0, start.len() as int) =~= start);
    }
    assert(cs.flatten() == cs[0] + cs.drop_first().flatten());
    assert(cs.flatten().subrange(0, start.len() as int) =~= start);
}

/// A frame names the size of the picture it carries: after saving the cursor,
/// moving it home and deleting all images, it opens the first graphics escape
/// sequence with `a=T,f=32,s=<width>,v=<height>,q=2,C=1,`, where width and
/// height are those of the image times the scale (at least 1).
pub proof fn law_frame_names_image_size(img: RgbaImage, scale: u32)
    ensures
        seq_starts_with(
            frame_bytes(img, scale),
            "\x1b7".spec_bytes() + "\x1b[1;1H".spec_bytes() + "\x1b_Ga=d,d=a,q=2;\x1b\\".spec_bytes()
                + seq![0x1bu8, 0x5fu8, 0x47u8] + "a=T,f=32,s=".spec_bytes() + decimal(
                img.spec_width() * effective_scale(scale),
            ) + ",v=".spec_bytes() + decimal(img.spec_height() * effective_scale(scale))
                + ",q=2,C=1".spec_bytes() + seq![0x2cu8],
        ),
{
    let sc = effective_scale(scale);
    let hdr = frame_header(img.spec_width() * sc, img.spec_height() * sc);
    let data = base64_standard(frame_pixels(img, scale));
    let body = kitty_chunks(hdr, data).flatten();
    let start = apc_open() + hdr.push(0x2cu8);
    lemma_chunks_start(hdr, data);
    let f = frame_bytes(img, scale);
    assert(f == frame_prologue() + body + frame_epilogue());
    let prefix = frame_prologue() + start;
    assert(f.subrange(0, prefix.len() as int) =~= prefix);
    assert(prefix =~= "\x1b7".spec_bytes() + "\x1b[1;1H".spec_bytes()
        + "\x1b_Ga=d,d=a,q=2;\x1b\\".spec_bytes() + seq![0x1bu8, 0x5fu8, 0x47u8]
        + "a=T,f=32,s=".spec_bytes() + decimal(img.spec_width() * sc) + ",v=".spec_bytes()
        + decimal(img.spec_height() * sc) + ",q=2,C=1".spec_bytes() + seq![0x2cu8]);
}

} // verus!
