//! The persisted form of a canvas, as bytes: counts as big-endian 32-bit
//! numbers, positions as big-endian 16-bit differences, colors as four
//! bytes each.

use vstd::prelude::*;
use std::collections::VecDeque;
use crate::color::Rgba;
use crate::error::CanvasError;
use crate::model::pixel_canvas::{log_view, PixelCanvasCommand};
use crate::history::CommandView;
use crate::pixel::{Pixel, PixelPosition};

verus! {

/// The four bytes of `n`, highest first.
pub open spec fn be_u32(n: u32) -> Seq<u8> {
    seq![
        (n / 0x100_0000) as u8,
        (n / 0x1_0000 % 256) as u8,
        (n / 0x100 % 256) as u8,
        (n % 256) as u8,
    ]
}

/// The number whose four bytes, highest first, start at `at` in `b`.
pub open spec fn u32_at(b: Seq<u8>, at: int) -> u32 {
    (b[at] * 0x100_0000 + b[at + 1] * 0x1_0000 + b[at + 2] * 0x100 + b[at + 3]) as u32
}

/// `v` brought into the range of a signed 16-bit number by adding or
/// taking away `2^16` once.
pub open spec fn wrap16(v: int) -> i16 {
    if v > i16::MAX {
        (v - 0x1_0000) as i16
    } else if v < i16::MIN {
        (v + 0x1_0000) as i16
    } else {
        v as i16
    }
}

/// The two bytes of `v` in two's complement, higher first.
pub open spec fn be_i16(v: i16) -> Seq<u8> {
    let u = if v < 0 {
        v + 0x1_0000
    } else {
        v as int
    };
    seq![(u / 256) as u8, (u % 256) as u8]
}

/// The signed number whose two bytes, higher first, start at `at` in `b`.
pub open spec fn i16_at(b: Seq<u8>, at: int) -> i16 {
    wrap16(b[at] * 256 + b[at + 1])
}

/// The color whose four bytes start at `at` in `b`.
pub open spec fn color_at(b: Seq<u8>, at: int) -> Rgba {
    Rgba { r: b[at], g: b[at + 1], b: b[at + 2], a: b[at + 3] }
}

/// The last number of `v`, or zero for the empty list.
pub open spec fn last_or_zero(v: Seq<i16>) -> i16 {
    if v.len() == 0 {
        0
    } else {
        v.last()
    }
}

/// The numbers of `v` written as differences: each as the two bytes of
/// what it adds to the one before it, the first as what it adds to zero.
/// A difference that leaves the signed 16-bit range wraps around.
pub open spec fn delta_bytes(v: Seq<i16>) -> Seq<u8>
    decreases v.len(),
{
    if v.len() == 0 {
        Seq::<u8>::empty()
    } else {
        delta_bytes(v.drop_last()) + be_i16(wrap16(v.last() - last_or_zero(v.drop_last())))
    }
}

/// The rows of the positions `ps`.
pub open spec fn rows(ps: Seq<PixelPosition>) -> Seq<i16> {
    ps.map_values(|p: PixelPosition| p.y)
}

/// The columns of the positions `ps`.
pub open spec fn columns(ps: Seq<PixelPosition>) -> Seq<i16> {
    ps.map_values(|p: PixelPosition| p.x)
}

/// The positions `ps` in two passes: first the differences of their rows,
/// then the differences of their columns, each pass running on from its
/// own start at zero.
pub open spec fn position_bytes(ps: Seq<PixelPosition>) -> Seq<u8> {
    delta_bytes(rows(ps)) + delta_bytes(columns(ps))
}

/// The colors of `s`, four bytes each.
pub open spec fn color_bytes(s: Seq<Pixel>) -> Seq<u8>
    decreases s.len(),
{
    if s.len() == 0 {
        Seq::<u8>::empty()
    } else {
        color_bytes(s.drop_last()) + seq![
            s.last().color.r,
            s.last().color.g,
            s.last().color.b,
            s.last().color.a,
        ]
    }
}

/// The positions of the pixels `s`.
pub open spec fn pixel_positions(s: Seq<Pixel>) -> Seq<PixelPosition> {
    s.map_values(|px: Pixel| px.position)
}

/// A list of pixels: their count, their positions, their colors.
pub open spec fn pixels_bytes(s: Seq<Pixel>) -> Seq<u8> {
    be_u32(s.len() as u32) + position_bytes(pixel_positions(s)) + color_bytes(s)
}

/// A command: the counts of its two lists, then the positions of both
/// lists as one run, then the colors of both.
pub open spec fn command_bytes(c: CommandView) -> Seq<u8> {
    be_u32(c.erase.len() as u32) + be_u32(c.draw.len() as u32) + position_bytes(
        pixel_positions(c.erase + c.draw),
    ) + color_bytes(c.erase + c.draw)
}

/// A canvas: an empty log, a cursor at zero, and the pixels.
pub open spec fn canvas_bytes(entries: Seq<Pixel>) -> Seq<u8> {
    be_u32(0) + be_u32(0) + pixels_bytes(entries)
}

/// The number that the differences up to the `i`th, read from `at` on in
/// `b`, add up to.
pub open spec fn running(b: Seq<u8>, at: int, i: int) -> i16
    decreases i + 1,
{
    if i < 0 {
        0
    } else {
        wrap16(running(b, at, i - 1) + i16_at(b, at + 2 * i))
    }
}

/// Reads a count at `at`: the count and where the reading stopped.
pub open spec fn read_count(b: Seq<u8>, at: int) -> Option<(nat, int)> {
    if 0 <= at && at + 4 <= b.len() {
        Some((u32_at(b, at) as nat, at + 4))
    } else {
        None
    }
}

/// Reads `n` positions at `at`.
pub open spec fn read_positions(b: Seq<u8>, at: int, n: nat) -> Option<(Seq<PixelPosition>, int)> {
    if 0 <= at && at + 4 * n <= b.len() {
        Some(
            (
                Seq::new(
                    n,
                    |i: int| PixelPosition { y: running(b, at, i), x: running(b, at + 2 * n, i) },
                ),
                at + 4 * n,
            ),
        )
    } else {
        None
    }
}

/// Reads `n` positions and then `n` colors at `at`.
pub open spec fn read_pixels(b: Seq<u8>, at: int, n: nat) -> Option<(Seq<Pixel>, int)> {
    match read_positions(b, at, n) {
        Some((ps, mid)) => if mid + 4 * n <= b.len() {
            Some(
                (
                    Seq::new(n, |i: int| Pixel { position: ps[i], color: color_at(b, mid + 4 * i) }),
                    mid + 4 * n,
                ),
            )
        } else {
            None
        },
        None => None,
    }
}

/// Reads a command at `at`.
pub open spec fn read_command(b: Seq<u8>, at: int) -> Option<(CommandView, int)> {
    match read_count(b, at) {
        Some((e, at1)) => match read_count(b, at1) {
            Some((d, at2)) => match read_pixels(b, at2, e + d) {
                Some((s, next)) => Some(
                    (CommandView { erase: s.take(e as int), draw: s.skip(e as int) }, next),
                ),
                None => None,
            },
            None => None,
        },
        None => None,
    }
}

/// Reads `n` commands at `at`.
pub open spec fn read_log(b: Seq<u8>, at: int, n: nat) -> Option<(Seq<CommandView>, int)>
    decreases n,
{
    if n == 0 {
        Some((Seq::<CommandView>::empty(), at))
    } else {
        match read_log(b, at, (n - 1) as nat) {
            Some((log, mid)) => match read_command(b, mid) {
                Some((c, next)) => Some((log.push(c), next)),
                None => None,
            },
            None => None,
        }
    }
}

/// What the bytes of a canvas hold.
pub struct Decoded {
    pub log: Seq<CommandView>,
    pub tail: nat,
    pub pixels: Seq<Pixel>,
}

/// Reads a canvas: the commands of the log behind their count, the
/// cursor, and the pixels behind their count. The cursor must lie within
/// the log. Bytes that follow are not looked at.
pub open spec fn read_canvas(b: Seq<u8>) -> Option<Decoded> {
    match read_count(b, 0) {
        Some((n, at1)) => match read_log(b, at1, n) {
            Some((log, at2)) => match read_count(b, at2) {
                Some((tail, at3)) => match read_count(b, at3) {
                    Some((count, at4)) => match read_pixels(b, at4, count) {
                        Some((pixels, _)) => if tail <= log.len() {
                            Some(Decoded { log, tail, pixels })
                        } else {
                            None
                        },
                        None => None,
                    },
                    None => None,
                },
                None => None,
            },
            None => None,
        },
        None => None,
    }
}

pub proof fn lemma_delta_bytes_len(v: Seq<i16>)
    ensures
        delta_bytes(v).len() == 2 * v.len(),
    decreases v.len(),
{
    if v.len() > 0 {
        lemma_delta_bytes_len(v.drop_last());
    }
}

pub proof fn lemma_color_bytes_len(s: Seq<Pixel>)
    ensures
        color_bytes(s).len() == 4 * s.len(),
    decreases s.len(),
{
    if s.len() > 0 {
        lemma_color_bytes_len(s.drop_last());
    }
}

/// The bytes of a count read back as the count.
pub proof fn lemma_u32_round_trip(n: u32, b: Seq<u8>, at: int)
    requires
        0 <= at,
        at + 4 <= b.len(),
        b.subrange(at, at + 4) == be_u32(n),
    ensures
        u32_at(b, at) == n,
{
    let part = b.subrange(at, at + 4);
    assert(part[0] == b[at] && part[1] == b[at + 1] && part[2] == b[at + 2] && part[3] == b[at
        + 3]);
}

/// The bytes of a signed number read back as the number.
pub proof fn lemma_i16_round_trip(v: i16, b: Seq<u8>, at: int)
    requires
        0 <= at,
        at + 2 <= b.len(),
        b.subrange(at, at + 2) == be_i16(v),
    ensures
        i16_at(b, at) == v,
{
    let part = b.subrange(at, at + 2);
    assert(part[0] == b[at] && part[1] == b[at + 1]);
}

/// Differences read back add up to the numbers they were made from.
pub proof fn lemma_running_round_trip(v: Seq<i16>, b: Seq<u8>, at: int, i: int)
    requires
        0 <= at,
        at + 2 * v.len() <= b.len(),
        b.subrange(at, at + 2 * v.len()) == delta_bytes(v),
        -1 <= i < v.len(),
    ensures
        running(b, at, i) == if i < 0 {
            0
        } else {
            v[i]
        },
    decreases v.len(),
{
    if i >= 0 {
        let init = v.drop_last();
        lemma_delta_bytes_len(init);
        lemma_delta_bytes_len(v);
        let whole = b.subrange(at, at + 2 * v.len());
        let short = init.len() as int;
        assert(b.subrange(at, at + 2 * short) =~= whole.subrange(0, 2 * short));
        assert(whole.subrange(0, 2 * short) =~= delta_bytes(init));
        if i < v.len() - 1 {
            lemma_running_round_trip(init, b, at, i);
        } else {
            lemma_running_round_trip(init, b, at, i - 1);
            let d = wrap16(v.last() - last_or_zero(init));
            assert(b.subrange(at + 2 * i, at + 2 * i + 2) =~= whole.subrange(
                2 * short,
                2 * short + 2,
            ));
            assert(whole.subrange(2 * short, 2 * short + 2) =~= be_i16(d));
            lemma_i16_round_trip(d, b, at + 2 * i);
            if i > 0 {
                assert(init[i - 1] == v[i - 1]);
            }
        }
    }
}

/// Colors read back are the colors written.
pub proof fn lemma_color_round_trip(s: Seq<Pixel>, b: Seq<u8>, at: int, i: int)
    requires
        0 <= at,
        at + 4 * s.len() <= b.len(),
        b.subrange(at, at + 4 * s.len()) == color_bytes(s),
        0 <= i < s.len(),
    ensures
        color_at(b, at + 4 * i) == s[i].color,
    decreases s.len(),
{
    let init = s.drop_last();
    lemma_color_bytes_len(init);
    lemma_color_bytes_len(s);
    let whole = b.subrange(at, at + 4 * s.len());
    let short = init.len() as int;
    if i < s.len() - 1 {
        assert(b.subrange(at, at + 4 * short) =~= whole.subrange(0, 4 * short));
        assert(whole.subrange(0, 4 * short) =~= color_bytes(init));
        lemma_color_round_trip(init, b, at, i);
    } else {
        let k = 4 * short;
        assert(whole[k] == b[at + k] && whole[k + 1] == b[at + k + 1] && whole[k + 2] == b[at
            + k + 2] && whole[k + 3] == b[at + k + 3]);
    }
}

/// A list of pixels written behind its count is read back as it was,
/// wherever in the bytes it stands.
pub proof fn lemma_pixels_round_trip(s: Seq<Pixel>, b: Seq<u8>, at: int)
    requires
        0 <= at,
        at + 8 * s.len() <= b.len(),
        b.subrange(at, at + 8 * s.len()) == position_bytes(pixel_positions(s)) + color_bytes(s),
    ensures
        read_pixels(b, at, s.len()) == Some((s, at + 8 * s.len())),
{
    let n = s.len() as int;
    let ps = pixel_positions(s);
    lemma_delta_bytes_len(rows(ps));
    lemma_delta_bytes_len(columns(ps));
    lemma_color_bytes_len(s);
    let whole = b.subrange(at, at + 8 * n);
    assert(b.subrange(at, at + 2 * n) =~= whole.subrange(0, 2 * n));
    assert(whole.subrange(0, 2 * n) =~= delta_bytes(rows(ps)));
    assert(b.subrange(at + 2 * n, at + 4 * n) =~= whole.subrange(2 * n, 4 * n));
    assert(whole.subrange(2 * n, 4 * n) =~= delta_bytes(columns(ps)));
    assert(b.subrange(at + 4 * n, at + 8 * n) =~= whole.subrange(4 * n, 8 * n));
    assert(whole.subrange(4 * n, 8 * n) =~= color_bytes(s));
    let got = read_pixels(b, at, s.len()).unwrap().0;
    assert(got.len() == s.len());
    assert forall|i: int| 0 <= i < n implies got[i] == s[i] by {
        lemma_running_round_trip(rows(ps), b, at, i);
        lemma_running_round_trip(columns(ps), b, at + 2 * n, i);
        lemma_color_round_trip(s, b, at + 4 * n, i);
    }
    assert(got =~= s);
}

/// The bytes of a canvas are read back as the pixels they were written
/// from, with an empty log and the cursor at zero.
pub proof fn lemma_canvas_round_trip(entries: Seq<Pixel>)
    requires
        entries.len() <= u32::MAX,
    ensures
        read_canvas(canvas_bytes(entries)) == Some(
            Decoded { log: Seq::<CommandView>::empty(), tail: 0, pixels: entries },
        ),
{
    let b = canvas_bytes(entries);
    let n = entries.len() as int;
    let head = be_u32(0) + be_u32(0) + be_u32(entries.len() as u32);
    let body = position_bytes(pixel_positions(entries)) + color_bytes(entries);
    lemma_delta_bytes_len(rows(pixel_positions(entries)));
    lemma_delta_bytes_len(columns(pixel_positions(entries)));
    lemma_color_bytes_len(entries);
    assert(head.len() == 12);
    assert(body.len() == 8 * n);
    assert(b =~= head + body);
    assert(b.subrange(0, 4) =~= be_u32(0));
    assert(b.subrange(4, 8) =~= be_u32(0));
    assert(b.subrange(8, 12) =~= be_u32(entries.len() as u32));
    assert(b.subrange(12, 12 + 8 * n) =~= body);
    lemma_u32_round_trip(0, b, 0);
    lemma_u32_round_trip(0, b, 4);
    lemma_u32_round_trip(entries.len() as u32, b, 8);
    lemma_pixels_round_trip(entries, b, 12);
    assert(read_count(b, 0) == Some((0nat, 4int)));
    assert(read_log(b, 4, 0) == Some((Seq::<CommandView>::empty(), 4int)));
    assert(read_count(b, 4) == Some((0nat, 8int)));
    assert(read_count(b, 8) == Some((entries.len(), 12int)));
    assert(read_pixels(b, 12, entries.len()) == Some((entries, 12 + 8 * n)));
}

/// The rows or the columns of the positions of the pixels `s`.
pub open spec fn coordinates(s: Seq<Pixel>, by_x: bool) -> Seq<i16> {
    if by_x {
        columns(pixel_positions(s))
    } else {
        rows(pixel_positions(s))
    }
}

fn wrapped(v: i32) -> (r: i16)
    requires
        -0x1_0000 <= v < 0x1_0000,
    ensures
        r == wrap16(v as int),
{
    if v > 32767 {
        (v - 0x1_0000) as i16
    } else if v < -32768 {
        (v + 0x1_0000) as i16
    } else {
        v as i16
    }
}

fn push_u32(out: &mut Vec<u8>, n: u32)
    ensures
        final(out)@ == old(out)@ + be_u32(n),
{
    out.push((n / 0x100_0000) as u8);
    out.push((n / 0x1_0000 % 256) as u8);
    out.push((n / 0x100 % 256) as u8);
    out.push((n % 256) as u8);
    proof {
        assert(out@ =~= old(out)@ + be_u32(n));
    }
}

fn push_i16(out: &mut Vec<u8>, v: i16)
    ensures
        final(out)@ == old(out)@ + be_i16(v),
{
    let u: i32 = if v < 0 {
        v as i32 + 0x1_0000
    } else {
        v as i32
    };
    out.push((u / 256) as u8);
    out.push((u % 256) as u8);
    proof {
        assert(out@ =~= old(out)@ + be_i16(v));
    }
}

/// Writes one coordinate of each pixel of `list` as the difference to
/// the one before it, running on from `prev`.
fn push_deltas(
    out: &mut Vec<u8>,
    list: &Vec<Pixel>,
    by_x: bool,
    prev: i16,
    Ghost(base): Ghost<Seq<u8>>,
    Ghost(before): Ghost<Seq<Pixel>>,
) -> (last: i16)
    requires
        old(out)@ == base + delta_bytes(coordinates(before, by_x)),
        prev == last_or_zero(coordinates(before, by_x)),
    ensures
        final(out)@ == base + delta_bytes(coordinates(before + list@, by_x)),
        last == last_or_zero(coordinates(before + list@, by_x)),
{
    let mut last = prev;
    let mut i: usize = 0;
    proof {
        assert(before + list@.take(0) =~= before);
    }
    while i < list.len()
        invariant
            i <= list.len(),
            out@ == base + delta_bytes(coordinates(before + list@.take(i as int), by_x)),
            last == last_or_zero(coordinates(before + list@.take(i as int), by_x)),
        decreases list.len() - i,
    {
        let p = list[i].position;
        let v = if by_x {
            p.x
        } else {
            p.y
        };
        proof {
            let short = coordinates(before + list@.take(i as int), by_x);
            let long = coordinates(before + list@.take(i + 1), by_x);
            assert(before + list@.take(i + 1) =~= (before + list@.take(i as int)).push(list@[i as int]));
            assert(long.drop_last() =~= short);
            assert(long.last() == v);
            assert((base + delta_bytes(short)) + be_i16(wrap16(v - last)) =~= base + (delta_bytes(
                short,
            ) + be_i16(wrap16(v - last))));
        }
        push_i16(out, wrapped(v as i32 - last as i32));
        last = v;
        i += 1;
    }
    proof {
        assert(list@.take(i as int) =~= list@);
    }
    last
}

/// Writes the colors of the pixels of `list`.
fn push_colors(
    out: &mut Vec<u8>,
    list: &Vec<Pixel>,
    Ghost(base): Ghost<Seq<u8>>,
    Ghost(before): Ghost<Seq<Pixel>>,
)
    requires
        old(out)@ == base + color_bytes(before),
    ensures
        final(out)@ == base + color_bytes(before + list@),
{
    let mut i: usize = 0;
    proof {
        assert(before + list@.take(0) =~= before);
    }
    while i < list.len()
        invariant
            i <= list.len(),
            out@ == base + color_bytes(before + list@.take(i as int)),
        decreases list.len() - i,
    {
        let c = list[i].color;
        proof {
            let short = before + list@.take(i as int);
            let long = before + list@.take(i + 1);
            assert(long =~= short.push(list@[i as int]));
            assert(long.drop_last() =~= short);
            assert((base + color_bytes(short)) + seq![c.r, c.g, c.b, c.a] =~= base + (color_bytes(
                short,
            ) + seq![c.r, c.g, c.b, c.a]));
        }
        let ghost was = out@;
        out.push(c.r);
        out.push(c.g);
        out.push(c.b);
        out.push(c.a);
        proof {
            assert(out@ =~= was + seq![c.r, c.g, c.b, c.a]);
        }
        i += 1;
    }
    proof {
        assert(list@.take(i as int) =~= list@);
    }
}

/// Writes the positions and then the colors of the pixels of `a` followed
/// by those of `b`, as one run.
fn push_pixels(out: &mut Vec<u8>, a: &Vec<Pixel>, b: &Vec<Pixel>)
    ensures
        final(out)@ == old(out)@ + (position_bytes(pixel_positions(a@ + b@)) + color_bytes(
            a@ + b@,
        )),
{
    let ghost base = out@;
    let ghost none = Seq::<Pixel>::empty();
    proof {
        assert(out@ =~= base + delta_bytes(coordinates(none, false)));
        assert(none + a@ =~= a@);
    }
    let y = push_deltas(out, a, false, 0, Ghost(base), Ghost(none));
    let _ = push_deltas(out, b, false, y, Ghost(base), Ghost(a@));
    let ghost base_x = out@;
    proof {
        assert(out@ =~= base_x + delta_bytes(coordinates(none, true)));
    }
    let x = push_deltas(out, a, true, 0, Ghost(base_x), Ghost(none));
    let _ = push_deltas(out, b, true, x, Ghost(base_x), Ghost(a@));
    let ghost base_c = out@;
    proof {
        assert(out@ =~= base_c + color_bytes(none));
    }
    push_colors(out, a, Ghost(base_c), Ghost(none));
    push_colors(out, b, Ghost(base_c), Ghost(a@));
    proof {
        let s = a@ + b@;
        assert(out@ =~= base + (position_bytes(pixel_positions(s)) + color_bytes(s)));
    }
}

/// The bytes of a canvas that holds the pixels `entries`: refused if
/// there are more pixels than a 32-bit count can tell.
pub fn encode_canvas(entries: &Vec<Pixel>) -> (r: Result<Vec<u8>, CanvasError>)
    ensures
        match r {
            Ok(bytes) => entries.len() <= u32::MAX && bytes@ == canvas_bytes(entries@),
            Err(e) => entries.len() > u32::MAX && e == CanvasError::EncodeFailure,
        },
{
    if entries.len() > u32::MAX as usize {
        return Err(CanvasError::EncodeFailure);
    }
    let mut out: Vec<u8> = Vec::new();
    let none: Vec<Pixel> = Vec::new();
    push_u32(&mut out, 0);
    push_u32(&mut out, 0);
    push_u32(&mut out, entries.len() as u32);
    push_pixels(&mut out, entries, &none);
    proof {
        assert(entries@ + none@ =~= entries@);
        assert(out@ =~= canvas_bytes(entries@));
    }
    Ok(out)
}

fn get_u32(b: &Vec<u8>, at: usize) -> (r: Option<(u32, usize)>)
    ensures
        match read_count(b@, at as int) {
            Some((n, next)) => r == Some((n as u32, next as usize)) && n <= u32::MAX && next
                <= b.len(),
            None => r is None,
        },
{
    if at > b.len() || b.len() - at < 4 {
        return None;
    }
    let n = (b[at] as u32) * 0x100_0000 + (b[at + 1] as u32) * 0x1_0000 + (b[at + 2] as u32)
        * 0x100 + (b[at + 3] as u32);
    Some((n, at + 4))
}

fn get_i16(b: &Vec<u8>, at: usize) -> (v: i16)
    requires
        at + 2 <= b.len(),
    ensures
        v == i16_at(b@, at as int),
{
    wrapped((b[at] as i32) * 256 + (b[at + 1] as i32))
}

/// Reads `n` numbers written as differences at `at`.
fn get_running(b: &Vec<u8>, at: usize, n: usize) -> (out: Vec<i16>)
    requires
        at + 2 * n <= b.len(),
    ensures
        out@.len() == n,
        forall|i: int| 0 <= i < n ==> out@[i] == running(b@, at as int, i),
{
    let mut out: Vec<i16> = Vec::new();
    let mut sum: i16 = 0;
    let mut i: usize = 0;
    while i < n
        invariant
            i <= n,
            at + 2 * n <= b.len(),
            out@.len() == i,
            sum == running(b@, at as int, i - 1),
            forall|k: int| 0 <= k < i ==> out@[k] == running(b@, at as int, k),
        decreases n - i,
    {
        let d = get_i16(b, at + 2 * i);
        sum = wrapped(sum as i32 + d as i32);
        out.push(sum);
        i += 1;
    }
    out
}

fn get_pixels(b: &Vec<u8>, at: usize, n: u64) -> (r: Option<(Vec<Pixel>, usize)>)
    requires
        at <= b.len(),
        n <= 0x2_0000_0000,
    ensures
        match read_pixels(b@, at as int, n as nat) {
            Some((s, next)) => r matches Some((list, stop)) && list@ == s && stop == next && stop
                <= b.len(),
            None => r is None,
        },
{
    let room = (b.len() - at) as u64;
    if n > room / 8 {
        return None;
    }
    let count = n as usize;
    let ys = get_running(b, at, count);
    let xs = get_running(b, at + 2 * count, count);
    let mid = at + 4 * count;
    let mut list: Vec<Pixel> = Vec::new();
    let mut i: usize = 0;
    while i < count
        invariant
            i <= count,
            mid + 4 * count <= b.len(),
            ys@.len() == count,
            xs@.len() == count,
            list@.len() == i,
            forall|k: int|
                0 <= k < i ==> list@[k] == (Pixel {
                    position: PixelPosition { y: ys@[k], x: xs@[k] },
                    color: color_at(b@, mid + 4 * k),
                }),
        decreases count - i,
    {
        let k = mid + 4 * i;
        let color = Rgba::new(b[k], b[k + 1], b[k + 2], b[k + 3]);
        list.push(Pixel::new(PixelPosition::from_xy(xs[i], ys[i]), color));
        i += 1;
    }
    proof {
        let s = read_pixels(b@, at as int, n as nat).unwrap().0;
        assert(list@ =~= s);
    }
    Some((list, mid + 4 * count))
}

fn get_command(b: &Vec<u8>, at: usize) -> (r: Option<(PixelCanvasCommand, usize)>)
    ensures
        match read_command(b@, at as int) {
            Some((c, next)) => r matches Some((command, stop)) && command@ == c && stop == next
                && stop <= b.len(),
            None => r is None,
        },
{
    let (e, at1) = match get_u32(b, at) {
        Some(found) => found,
        None => {
            return None;
        },
    };
    let (d, at2) = match get_u32(b, at1) {
        Some(found) => found,
        None => {
            return None;
        },
    };
    let (mut erase, stop) = match get_pixels(b, at2, e as u64 + d as u64) {
        Some(found) => found,
        None => {
            return None;
        },
    };
    let ghost all = erase@;
    let draw = erase.split_off(e as usize);
    proof {
        assert(erase@ =~= all.take(e as int));
        assert(draw@ =~= all.skip(e as int));
    }
    Some((PixelCanvasCommand { erase, draw }, stop))
}

/// If the first commands of a log cannot be read, the log cannot.
proof fn lemma_read_log_prefix(b: Seq<u8>, at: int, i: nat, n: nat)
    requires
        i <= n,
        read_log(b, at, i) is None,
    ensures
        read_log(b, at, n) is None,
    decreases n,
{
    if i < n {
        lemma_read_log_prefix(b, at, i, (n - 1) as nat);
    }
}

fn get_log(b: &Vec<u8>, at: usize, n: u32) -> (r: Option<(VecDeque<PixelCanvasCommand>, usize)>)
    requires
        at <= b.len(),
    ensures
        match read_log(b@, at as int, n as nat) {
            Some((s, next)) => r matches Some((log, stop)) && log_view(log@) == s && stop == next
                && stop <= b.len(),
            None => r is None,
        },
{
    let mut log: VecDeque<PixelCanvasCommand> = VecDeque::new();
    let mut cur = at;
    let mut i: u32 = 0;
    proof {
        assert(log_view(log@) =~= Seq::<CommandView>::empty());
    }
    while i < n
        invariant
            i <= n,
            cur <= b.len(),
            read_log(b@, at as int, i as nat) == Some((log_view(log@), cur as int)),
        decreases n - i,
    {
        match get_command(b, cur) {
            Some((command, stop)) => {
                proof {
                    assert(log_view(log@.push(command)) =~= log_view(log@).push(command@));
                }
                log.push_back(command);
                cur = stop;
            },
            None => {
                proof {
                    lemma_read_log_prefix(b@, at as int, (i + 1) as nat, n as nat);
                }
                return None;
            },
        }
        i += 1;
    }
    Some((log, cur))
}

/// Reads the bytes of a canvas: its log, its cursor and its pixels.
pub fn decode_canvas(b: &Vec<u8>) -> (r: Option<(VecDeque<PixelCanvasCommand>, usize, Vec<Pixel>)>)
    ensures
        match read_canvas(b@) {
            Some(d) => r matches Some((log, tail, pixels)) && log_view(log@) == d.log && tail
                == d.tail && pixels@ == d.pixels && tail <= log@.len(),
            None => r is None,
        },
{
    let (n, at1) = match get_u32(b, 0) {
        Some(found) => found,
        None => {
            return None;
        },
    };
    let (log, at2) = match get_log(b, at1, n) {
        Some(found) => found,
        None => {
            return None;
        },
    };
    let (tail, at3) = match get_u32(b, at2) {
        Some(found) => found,
        None => {
            return None;
        },
    };
    let (count, at4) = match get_u32(b, at3) {
        Some(found) => found,
        None => {
            return None;
        },
    };
    let (pixels, _) = match get_pixels(b, at4, count as u64) {
        Some(found) => found,
        None => {
            return None;
        },
    };
    if tail as usize > log.len() {
        return None;
    }
    Some((log, tail as usize, pixels))
}

impl PixelCanvasCommand {
    /// The bytes of the command: refused if one of its lists holds more
    /// pixels than a 32-bit count can tell.
    pub fn serialize(&self) -> (r: Result<Vec<u8>, CanvasError>)
        ensures
            match r {
                Ok(bytes) => self.erase.len() <= u32::MAX && self.draw.len() <= u32::MAX
                    && bytes@ == command_bytes(self@),
                Err(e) => (self.erase.len() > u32::MAX || self.draw.len() > u32::MAX) && e
                    == CanvasError::EncodeFailure,
            },
    {
        if self.erase.len() > u32::MAX as usize || self.draw.len() > u32::MAX as usize {
            return Err(CanvasError::EncodeFailure);
        }
        let mut out: Vec<u8> = Vec::new();
        push_u32(&mut out, self.erase.len() as u32);
        push_u32(&mut out, self.draw.len() as u32);
        push_pixels(&mut out, &self.erase, &self.draw);
        proof {
            assert(out@ =~= command_bytes(self@));
        }
        Ok(out)
    }

    /// Reads a command from the start of `bytes`; what follows it is not
    /// looked at.
    pub fn deserialize(bytes: &Vec<u8>) -> (r: Result<PixelCanvasCommand, CanvasError>)
        ensures
            match read_command(bytes@, 0) {
                Some((c, _)) => r matches Ok(command) && command@ == c,
                None => r matches Err(e) && e == CanvasError::DecodeFailure,
            },
    {
        match get_command(bytes, 0) {
            Some((command, _)) => Ok(command),
            None => Err(CanvasError::DecodeFailure),
        }
    }
}

/// The bytes of a command are read back as the command they were written
/// from.
pub proof fn law_command_round_trip(c: CommandView)
    requires
        c.erase.len() <= u32::MAX,
        c.draw.len() <= u32::MAX,
    ensures
        read_command(command_bytes(c), 0) matches Some((d, _)) && d.erase == c.erase && d.draw
            == c.draw,
{
    let b = command_bytes(c);
    let s = c.erase + c.draw;
    let n = s.len() as int;
    let head = be_u32(c.erase.len() as u32) + be_u32(c.draw.len() as u32);
    let body = position_bytes(pixel_positions(s)) + color_bytes(s);
    lemma_delta_bytes_len(rows(pixel_positions(s)));
    lemma_delta_bytes_len(columns(pixel_positions(s)));
    lemma_color_bytes_len(s);
    assert(head.len() == 8);
    assert(body.len() == 8 * n);
    assert(b =~= head + body);
    assert(b.subrange(0, 4) =~= be_u32(c.erase.len() as u32));
    assert(b.subrange(4, 8) =~= be_u32(c.draw.len() as u32));
    assert(b.subrange(8, 8 + 8 * n) =~= body);
    lemma_u32_round_trip(c.erase.len() as u32, b, 0);
    lemma_u32_round_trip(c.draw.len() as u32, b, 4);
    lemma_pixels_round_trip(s, b, 8);
    assert(read_count(b, 0) == Some((c.erase.len(), 4int)));
    assert(read_count(b, 4) == Some((c.draw.len(), 8int)));
    assert(read_pixels(b, 8, s.len()) == Some((s, 8 + 8 * n)));
    assert(s.take(c.erase.len() as int) =~= c.erase);
    assert(s.skip(c.erase.len() as int) =~= c.draw);
}

} // verus!
