//! Which picture files the decoders of `image` can take.
//!
//! The decoder for JPEG files stops with a panic on a few frames: where a part of the
//! colours is sampled more finely than the first one in a way that its buffers are not
//! made for, or where an Adobe segment speaks of more colours than there are. The one for
//! PNG files does so on a palette that ends in the middle of a colour. Such files are told
//! apart here, by what stands in them.

use vstd::prelude::*;

verus! {

/// A number of two bytes, the higher one first.
pub open spec fn word_at(b: Seq<u8>, i: int) -> int {
    b[i] * 256 + b[i + 1]
}

fn read_word(b: &[u8], i: usize) -> (r: usize)
    requires
        i + 1 < b@.len(),
    ensures
        r == word_at(b@, i as int),
{
    b[i] as usize * 256 + b[i + 1] as usize
}

/// How often a part of the colours of a frame is sampled across.
pub open spec fn across(b: Seq<u8>, p: int, c: int) -> int {
    b[p + 11 + 3 * c] as int / 16
}

/// How often a part of the colours of a frame is sampled down.
pub open spec fn down(b: Seq<u8>, p: int, c: int) -> int {
    b[p + 11 + 3 * c] as int % 16
}

/// How many parts the colours of a frame have.
pub open spec fn parts(b: Seq<u8>, p: int) -> int {
    b[p + 9] as int
}

/// Whether the header of a frame of eight bits, with one to four parts of the colours,
/// stands at this place of a JPEG file.
pub open spec fn frame_at(b: Seq<u8>, p: int) -> bool {
    &&& 0 <= p
    &&& p + 10 <= b.len()
    &&& b[p] == 0xff
    &&& 0xc0 <= b[p + 1] <= 0xc2
    &&& b[p + 4] == 8
    &&& 1 <= parts(b, p) <= 4
    &&& word_at(b, p + 2) == 8 + 3 * parts(b, p)
    &&& p + 10 + 3 * parts(b, p) <= b.len()
    &&& forall|c: int| 0 <= c < parts(b, p) ==> #[trigger] across(b, p, c) >= 1
}

/// Whether a frame is sent in steps, from coarse to fine.
pub open spec fn progressive(b: Seq<u8>, p: int) -> bool {
    b[p + 1] == 0xc2
}

/// The most samples across in the first `k` parts.
pub open spec fn widest(b: Seq<u8>, p: int, k: nat) -> int
    decreases k,
{
    if k == 0 {
        1
    } else {
        let before = widest(b, p, (k - 1) as nat);
        if across(b, p, k - 1) > before {
            across(b, p, k - 1)
        } else {
            before
        }
    }
}

/// The most samples down in the first `k` parts.
pub open spec fn tallest(b: Seq<u8>, p: int, k: nat) -> int
    decreases k,
{
    if k == 0 {
        1
    } else {
        let before = tallest(b, p, (k - 1) as nat);
        if down(b, p, k - 1) > before {
            down(b, p, k - 1)
        } else {
            before
        }
    }
}

/// How many blocks a picture is wide that is sampled `most` times across.
pub open spec fn blocks(b: Seq<u8>, p: int, most: int) -> int {
    (word_at(b, p + 7) + 8 * most - 1) / (8 * most)
}

/// How many blocks the decoder gives to a row of a part: it goes by the parts up to this
/// one.
pub open spec fn row(b: Seq<u8>, p: int, c: int) -> int {
    across(b, p, c) * blocks(b, p, widest(b, p, (c + 1) as nat))
}

/// Whether a part is sampled half as often as the finest one both ways, and its row is
/// more than half as long as that of the first part.
pub open spec fn cramped_part(b: Seq<u8>, p: int, c: int) -> bool {
    let n = parts(b, p) as nat;
    &&& widest(b, p, n) == 2 * across(b, p, c)
    &&& tallest(b, p, n) == 2 * down(b, p, c)
    &&& 2 * row(b, p, c) > row(b, p, 0)
}

pub open spec fn cramped(b: Seq<u8>, p: int) -> bool {
    exists|c: int| 0 <= c < parts(b, p) && #[trigger] cramped_part(b, p, c)
}

/// Whether the row of a part is longer than the blocks of the picture make it.
pub open spec fn uneven_part(b: Seq<u8>, p: int, c: int) -> bool {
    row(b, p, c) != across(b, p, c) * blocks(b, p, widest(b, p, parts(b, p) as nat))
}

pub open spec fn uneven(b: Seq<u8>, p: int) -> bool {
    exists|c: int| 0 <= c < parts(b, p) && #[trigger] uneven_part(b, p, c)
}

/// Whether the header of a scan stands at this place that has fewer than `n` parts.
pub open spec fn partial_scan(b: Seq<u8>, q: int, n: int) -> bool {
    &&& 0 <= q
    &&& q + 5 <= b.len()
    &&& b[q] == 0xff
    &&& b[q + 1] == 0xda
    &&& 1 <= b[q + 4] < n
    &&& word_at(b, q + 2) == 6 + 2 * b[q + 4]
}

/// Whether an Adobe segment with this way of mixing colours stands at this place.
pub open spec fn adobe_at(b: Seq<u8>, q: int, transform: u8) -> bool {
    &&& 0 <= q
    &&& q + 16 <= b.len()
    &&& b[q] == 0xff
    &&& b[q + 1] == 0xee
    &&& b[q + 4] == 0x41
    &&& b[q + 5] == 0x64
    &&& b[q + 6] == 0x6f
    &&& b[q + 7] == 0x62
    &&& b[q + 8] == 0x65
    &&& b[q + 15] == transform
}

/// Whether behind this place there is the header of a scan of fewer than `n` parts.
pub open spec fn scans_apart(b: Seq<u8>, p: int, n: int) -> bool {
    exists|q: int| p < q && #[trigger] partial_scan(b, q, n)
}

/// Whether behind this place there is an Adobe segment with this way of mixing colours.
pub open spec fn adobe_behind(b: Seq<u8>, p: int, transform: u8) -> bool {
    exists|q: int| p < q && #[trigger] adobe_at(b, q, transform)
}

/// Whether the decoder cannot take the frame at this place.
pub open spec fn awkward_frame(b: Seq<u8>, p: int) -> bool {
    let n = parts(b, p);
    frame_at(b, p) && if progressive(b, p) {
        ||| cramped(b, p)
        ||| n == 1 && adobe_behind(b, p, 2)
        ||| n == 2 && adobe_behind(b, -1, 2)
        ||| n == 4 && adobe_behind(b, p, 1)
    } else {
        (cramped(b, p) || uneven(b, p)) && scans_apart(b, p, n)
    }
}

/// Whether a file starts as a JPEG file does.
pub open spec fn is_jpeg(b: Seq<u8>) -> bool {
    b.len() >= 2 && b[0] == 0xff && b[1] == 0xd8
}

/// Whether a file starts as a PNG file with a palette does.
pub open spec fn is_palette_png(b: Seq<u8>) -> bool {
    &&& b.len() >= 26
    &&& b[0] == 137
    &&& b[1] == 80
    &&& b[2] == 78
    &&& b[3] == 71
    &&& b[25] == 3
}

/// Whether a palette stands at this place of a PNG file whose bytes are not threes.
pub open spec fn ragged_palette(b: Seq<u8>, p: int) -> bool {
    &&& 0 <= p
    &&& p + 8 <= b.len()
    &&& b[p] == 0
    &&& b[p + 1] == 0
    &&& word_at(b, p + 2) % 3 != 0
    &&& b[p + 4] == 80
    &&& b[p + 5] == 76
    &&& b[p + 6] == 84
    &&& b[p + 7] == 69
}

pub open spec fn has_awkward_frame(b: Seq<u8>) -> bool {
    exists|p: int| #[trigger] awkward_frame(b, p)
}

pub open spec fn has_ragged_palette(b: Seq<u8>) -> bool {
    exists|p: int| #[trigger] ragged_palette(b, p)
}

/// Whether the decoders can take a file: they give a picture or an error then.
pub open spec fn decodable(b: Seq<u8>) -> bool {
    &&& !(is_jpeg(b) && has_awkward_frame(b))
    &&& !(is_palette_png(b) && has_ragged_palette(b))
}

fn find_ragged_palette(b: &[u8]) -> (r: bool)
    ensures
        r == has_ragged_palette(b@),
{
    let n = b.len();
    let mut p: usize = 0;
    while p < n
        invariant
            n == b@.len(),
            p <= n,
            forall|k: int| 0 <= k < p ==> !#[trigger] ragged_palette(b@, k),
        decreases n - p,
    {
        if n - p >= 8 && b[p] == 0 && b[p + 1] == 0 && b[p + 4] == 80 && b[p + 5] == 76 && b[p + 6]
            == 84 && b[p + 7] == 69 && read_word(b, p + 2) % 3 != 0 {
            assert(ragged_palette(b@, p as int));
            return true;
        }
        assert(!ragged_palette(b@, p as int));
        p = p + 1;
    }
    assert forall|k: int| !#[trigger] ragged_palette(b@, k) by {}
    false
}

fn is_partial_scan(b: &[u8], q: usize, n: u8) -> (r: bool)
    ensures
        r == partial_scan(b@, q as int, n as int),
{
    q < b.len() && b.len() - q >= 5 && b[q] == 0xff && b[q + 1] == 0xda && b[q + 4] >= 1 && b[q + 4]
        < n && read_word(b, q + 2) == 6 + 2 * b[q + 4] as usize
}

fn has_scans_apart(b: &[u8], p: usize, n: u8) -> (r: bool)
    requires
        p < b@.len(),
    ensures
        r == scans_apart(b@, p as int, n as int),
{
    let size = b.len();
    assert(p < size);
    let mut q: usize = p + 1;
    while q < b.len()
        invariant
            p < q <= b@.len(),
            forall|k: int| p < k < q ==> !#[trigger] partial_scan(b@, k, n as int),
        decreases b@.len() - q,
    {
        if is_partial_scan(b, q, n) {
            return true;
        }
        q = q + 1;
    }
    assert forall|k: int| p < k implies !#[trigger] partial_scan(b@, k, n as int) by {}
    false
}

fn is_adobe(b: &[u8], q: usize, transform: u8) -> (r: bool)
    ensures
        r == adobe_at(b@, q as int, transform),
{
    q < b.len() && b.len() - q >= 16 && b[q] == 0xff && b[q + 1] == 0xee && b[q + 4] == 0x41 && b[q
        + 5] == 0x64 && b[q + 6] == 0x6f && b[q + 7] == 0x62 && b[q + 8] == 0x65 && b[q + 15]
        == transform
}

fn has_adobe_from(b: &[u8], from: usize, transform: u8) -> (r: bool)
    requires
        from <= b@.len(),
    ensures
        r == adobe_behind(b@, from - 1, transform),
{
    let mut q: usize = from;
    while q < b.len()
        invariant
            from <= q <= b@.len(),
            forall|k: int| from <= k < q ==> !#[trigger] adobe_at(b@, k, transform),
        decreases b@.len() - q,
    {
        if is_adobe(b, q, transform) {
            return true;
        }
        q = q + 1;
    }
    assert forall|k: int| from - 1 < k implies !#[trigger] adobe_at(b@, k, transform) by {}
    false
}

fn samples_across(b: &[u8], p: usize, c: usize) -> (r: usize)
    requires
        frame_at(b@, p as int),
        c < parts(b@, p as int),
    ensures
        r == across(b@, p as int, c as int),
        1 <= r <= 15,
{
    let size = b.len();
    assert(p + 10 + 3 * parts(b@, p as int) <= size);
    assert(across(b@, p as int, c as int) >= 1);
    b[p + 11 + 3 * c] as usize / 16
}

fn samples_down(b: &[u8], p: usize, c: usize) -> (r: usize)
    requires
        frame_at(b@, p as int),
        c < parts(b@, p as int),
    ensures
        r == down(b@, p as int, c as int),
        r <= 15,
{
    let size = b.len();
    assert(p + 10 + 3 * parts(b@, p as int) <= size);
    b[p + 11 + 3 * c] as usize % 16
}

fn most_across(b: &[u8], p: usize, k: usize) -> (r: usize)
    requires
        frame_at(b@, p as int),
        k <= parts(b@, p as int),
    ensures
        r == widest(b@, p as int, k as nat),
        1 <= r <= 15,
{
    let mut most: usize = 1;
    let mut c: usize = 0;
    while c < k
        invariant
            c <= k <= parts(b@, p as int),
            frame_at(b@, p as int),
            most == widest(b@, p as int, c as nat),
            1 <= most <= 15,
        decreases k - c,
    {
        let next = samples_across(b, p, c);
        if next > most {
            most = next;
        }
        c = c + 1;
    }
    most
}

fn most_down(b: &[u8], p: usize, k: usize) -> (r: usize)
    requires
        frame_at(b@, p as int),
        k <= parts(b@, p as int),
    ensures
        r == tallest(b@, p as int, k as nat),
        1 <= r <= 15,
{
    let mut most: usize = 1;
    let mut c: usize = 0;
    while c < k
        invariant
            c <= k <= parts(b@, p as int),
            frame_at(b@, p as int),
            most == tallest(b@, p as int, c as nat),
            1 <= most <= 15,
        decreases k - c,
    {
        let next = samples_down(b, p, c);
        if next > most {
            most = next;
        }
        c = c + 1;
    }
    most
}

fn count_blocks(b: &[u8], p: usize, most: usize) -> (r: usize)
    requires
        frame_at(b@, p as int),
        1 <= most <= 15,
    ensures
        r == blocks(b@, p as int, most as int),
        r <= 8192,
{
    let size = b.len();
    assert(p + 10 <= size);
    let width = read_word(b, p + 7);
    let r = (width + 8 * most - 1) / (8 * most);
    assert(r <= 8192) by (nonlinear_arith)
        requires
            r == (width + 8 * most - 1) / (8 * most as int),
            width <= 65535,
            1 <= most,
    ;
    r
}

fn row_of(b: &[u8], p: usize, c: usize) -> (r: usize)
    requires
        frame_at(b@, p as int),
        c < parts(b@, p as int),
    ensures
        r == row(b@, p as int, c as int),
        r <= 122880,
{
    let most = most_across(b, p, c + 1);
    let times = samples_across(b, p, c);
    let wide = count_blocks(b, p, most);
    assert(times * wide <= 15 * 8192) by (nonlinear_arith)
        requires
            0 <= times <= 15,
            0 <= wide <= 8192,
    ;
    times * wide
}

fn is_cramped(b: &[u8], p: usize) -> (r: bool)
    requires
        frame_at(b@, p as int),
    ensures
        r == cramped(b@, p as int),
{
    let size = b.len();
    assert(p + 10 <= size);
    let n = b[p + 9] as usize;
    let wide = most_across(b, p, n);
    let tall = most_down(b, p, n);
    let first = row_of(b, p, 0);
    let mut c: usize = 0;
    while c < n
        invariant
            c <= n == parts(b@, p as int),
            frame_at(b@, p as int),
            wide == widest(b@, p as int, n as nat),
            tall == tallest(b@, p as int, n as nat),
            first == row(b@, p as int, 0),
            forall|k: int| 0 <= k < c ==> !#[trigger] cramped_part(b@, p as int, k),
        decreases n - c,
    {
        if wide == 2 * samples_across(b, p, c) && tall == 2 * samples_down(b, p, c) && 2 * row_of(
            b,
            p,
            c,
        ) > first {
            assert(cramped_part(b@, p as int, c as int));
            return true;
        }
        c = c + 1;
    }
    false
}

fn is_uneven(b: &[u8], p: usize) -> (r: bool)
    requires
        frame_at(b@, p as int),
    ensures
        r == uneven(b@, p as int),
{
    let size = b.len();
    assert(p + 10 <= size);
    let n = b[p + 9] as usize;
    let most = most_across(b, p, n);
    let wide = count_blocks(b, p, most);
    let mut c: usize = 0;
    while c < n
        invariant
            c <= n == parts(b@, p as int),
            frame_at(b@, p as int),
            wide == blocks(b@, p as int, widest(b@, p as int, n as nat)),
            wide <= 8192,
            forall|k: int| 0 <= k < c ==> !#[trigger] uneven_part(b@, p as int, k),
        decreases n - c,
    {
        let times = samples_across(b, p, c);
        assert(times * wide <= 15 * 8192) by (nonlinear_arith)
            requires
                0 <= times <= 15,
                0 <= wide <= 8192,
        ;
        if row_of(b, p, c) != times * wide {
            assert(uneven_part(b@, p as int, c as int));
            return true;
        }
        c = c + 1;
    }
    false
}

fn is_frame(b: &[u8], p: usize) -> (r: bool)
    ensures
        r == frame_at(b@, p as int),
{
    if p >= b.len() || b.len() - p < 10 {
        return false;
    }
    let n = b[p + 9] as usize;
    if b[p] != 0xff || b[p + 1] < 0xc0 || b[p + 1] > 0xc2 || b[p + 4] != 8 || n < 1 || n > 4
        || read_word(b, p + 2) != 8 + 3 * n || b.len() - p < 10 + 3 * n {
        return false;
    }
    let size = b.len();
    let mut c: usize = 0;
    while c < n
        invariant
            c <= n == parts(b@, p as int),
            n <= 4,
            p + 10 + 3 * n <= b@.len(),
            size == b@.len(),
            forall|k: int| 0 <= k < c ==> #[trigger] across(b@, p as int, k) >= 1,
        decreases n - c,
    {
        if b[p + 11 + 3 * c] / 16 < 1 {
            assert(across(b@, p as int, c as int) < 1);
            return false;
        }
        c = c + 1;
    }
    true
}

fn is_awkward(b: &[u8], p: usize) -> (r: bool)
    ensures
        r == awkward_frame(b@, p as int),
{
    if !is_frame(b, p) {
        return false;
    }
    let size = b.len();
    assert(p + 10 <= size);
    let n = b[p + 9];
    if b[p + 1] == 0xc2 {
        is_cramped(b, p) || n == 1 && has_adobe_from(b, p + 1, 2) || n == 2 && has_adobe_from(
            b,
            0,
            2,
        ) || n == 4 && has_adobe_from(b, p + 1, 1)
    } else {
        (is_cramped(b, p) || is_uneven(b, p)) && has_scans_apart(b, p, n)
    }
}

fn find_awkward_frame(b: &[u8]) -> (r: bool)
    ensures
        r == has_awkward_frame(b@),
{
    let mut p: usize = 0;
    while p < b.len()
        invariant
            p <= b@.len(),
            forall|k: int| 0 <= k < p ==> !#[trigger] awkward_frame(b@, k),
        decreases b@.len() - p,
    {
        if is_awkward(b, p) {
            return true;
        }
        p = p + 1;
    }
    assert forall|k: int| !#[trigger] awkward_frame(b@, k) by {}
    false
}

/// Whether the decoders can take a file.
pub fn is_decodable(b: &[u8]) -> (r: bool)
    ensures
        r == decodable(b@),
{
    let jpeg = b.len() >= 2 && b[0] == 0xff && b[1] == 0xd8;
    if jpeg && find_awkward_frame(b) {
        return false;
    }
    let png = b.len() >= 26 && b[0] == 137 && b[1] == 80 && b[2] == 78 && b[3] == 71 && b[25] == 3;
    !(png && find_ragged_palette(b))
}

} // verus!
