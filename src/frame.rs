//! Line-type decompression of one frame and XOR compositing against the
//! previous frame.
//!
//! A frame's pixels live in a flat buffer of two layers of 192 rows of 256
//! cells, cell `(l, y, x)` at index `l * 49152 + y * 256 + x`. In contracts a
//! frame is a `Planes` value, indexed `[layer][row][column]`.
use vstd::prelude::*;
use crate::bytes::{be32, fits, read_u32_be, read_u8};
use crate::error::PpmError;

verus! {

/// Two layers of 192 rows of 256 cells.
pub type Planes = Seq<Seq<Seq<u8>>>;

/// The cell `(l, y, x)` of a flat frame buffer.
pub open spec fn cell(s: Seq<u8>, l: int, y: int, x: int) -> u8 {
    s[l * 49152 + y * 256 + x]
}

/// The frame that a flat buffer holds.
pub open spec fn planes_of(s: Seq<u8>) -> Planes {
    Seq::new(2, |l: int| Seq::new(192, |y: int| Seq::new(256, |x: int| cell(s, l, y, x))))
}

/// The frame whose every cell is zero.
pub open spec fn blank() -> Planes {
    Seq::new(2, |l: int| Seq::new(192, |y: int| Seq::new(256, |x: int| 0u8)))
}

/// Bit `k` (least significant first) of `b`, as 0 or 1.
pub open spec fn bit_of(b: u8, k: int) -> u8 {
    (b >> (k as u8)) & 1u8
}

/// The bytes of the stream from `off` on; empty where `off` lies past its end.
pub open spec fn frame_bytes(d: Seq<u8>, off: int) -> Seq<u8> {
    if 0 <= off <= d.len() {
        d.subrange(off, d.len() as int)
    } else {
        seq![]
    }
}

/// The frame header byte has its "new frame" bit (bit 7) set.
pub open spec fn is_new(f: Seq<u8>) -> bool {
    f.len() > 0 && f[0] & 0x80u8 != 0
}

/// The frame header marks a translated frame (bits 5 and 6 not both zero).
pub open spec fn is_translated(f: Seq<u8>) -> bool {
    (f[0] >> 5u8) & 3u8 != 0
}

/// Where the line-type tables start: after the header byte and, for a
/// translated frame, the two translation bytes.
pub open spec fn tables_at(f: Seq<u8>) -> int {
    if is_translated(f) {
        3
    } else {
        1
    }
}

/// A byte read as a two's complement signed value.
pub open spec fn signed(b: u8) -> int {
    if b < 128 {
        b as int
    } else {
        b as int - 256
    }
}

/// Horizontal translation of the frame.
pub open spec fn trans_x(f: Seq<u8>) -> int {
    if is_translated(f) {
        signed(f[1])
    } else {
        0
    }
}

/// Vertical translation of the frame.
pub open spec fn trans_y(f: Seq<u8>) -> int {
    if is_translated(f) {
        signed(f[2])
    } else {
        0
    }
}

/// The two-bit line type of row `n` in the table that starts at `tb`.
pub open spec fn line_type(f: Seq<u8>, tb: int, n: int) -> u8 {
    (f[tb + n / 4] >> (((n % 4) * 2) as u8)) & 3u8
}

/// Whether group `g` (of eight pixels) is stored, by the chunk-usage mask.
pub open spec fn mask_bit(m: u32, g: int) -> bool {
    (m >> ((31 - g) as u32)) & 1u32 == 1u32
}

/// How many of the groups before `g` are stored.
pub open spec fn ones_before(m: u32, g: int) -> int
    decreases g,
{
    if g <= 0 {
        0
    } else {
        ones_before(m, g - 1) + if mask_bit(m, g - 1) {
            1int
        } else {
            0int
        }
    }
}

/// A raw row: 32 bytes at `p`, each expanded least significant bit first.
pub open spec fn raw_row(f: Seq<u8>, p: int) -> Seq<u8> {
    Seq::new(256, |x: int| bit_of(f[p + x / 8], x % 8))
}

/// A chunked row whose stored groups start at `p`; the others hold `fill`.
pub open spec fn chunk_row(f: Seq<u8>, p: int, m: u32, fill: u8) -> Seq<u8> {
    Seq::new(
        256,
        |x: int|
            if mask_bit(m, x / 8) {
                bit_of(f[p + ones_before(m, x / 8)], x % 8)
            } else {
                fill
            },
    )
}

/// Decodes one row of line type `t` whose data starts at `p`: the row and
/// the position after its data, or `None` where the data runs past the end.
pub open spec fn decode_row(f: Seq<u8>, p: int, t: u8) -> Option<(Seq<u8>, int)> {
    if t == 0 {
        Some((Seq::new(256, |x: int| 0u8), p))
    } else if t == 3 {
        if fits(f, p, 32) {
            Some((raw_row(f, p), p + 32))
        } else {
            None
        }
    } else if fits(f, p, 4) && fits(f, p + 4, ones_before(be32(f, p), 32)) {
        Some(
            (
                chunk_row(f, p + 4, be32(f, p), if t == 2 {
                    1u8
                } else {
                    0u8
                }),
                p + 4 + ones_before(be32(f, p), 32),
            ),
        )
    } else {
        None
    }
}

/// Decodes the first `n` rows of a layer whose line types start at `tb` and
/// whose row data starts at `p`.
pub open spec fn layer_rows(f: Seq<u8>, tb: int, p: int, n: nat) -> Option<(Seq<Seq<u8>>, int)>
    decreases n,
{
    if n == 0 {
        Some((seq![], p))
    } else {
        match layer_rows(f, tb, p, (n - 1) as nat) {
            None => None,
            Some((rows, q)) => match decode_row(f, q, line_type(f, tb, n - 1)) {
                None => None,
                Some((row, e)) => Some((rows.push(row), e)),
            },
        }
    }
}

/// The frame's own layers, before any compositing.
pub open spec fn raw_frame(f: Seq<u8>) -> Option<Planes> {
    if f.len() < 1 || !fits(f, tables_at(f), 96) {
        None
    } else {
        match layer_rows(f, tables_at(f), tables_at(f) + 96, 192) {
            None => None,
            Some((l0, p0)) => match layer_rows(f, tables_at(f) + 48, p0, 192) {
                None => None,
                Some((l1, p1)) => Some(seq![l0, l1]),
            },
        }
    }
}

/// One composed cell: the frame's own bit, XORed with the previous frame's
/// cell at `(y - ty, x - tx)` where that lies on the screen.
pub open spec fn comp_cell(v: u8, prev: Planes, l: int, y: int, x: int, tx: int, ty: int) -> u8 {
    if 0 <= y - ty < 192 && 0 <= x - tx < 256 {
        v ^ prev[l][y - ty][x - tx]
    } else {
        v
    }
}

/// A frame's own layers XORed with the translated previous frame.
pub open spec fn compose(raw: Planes, prev: Planes, tx: int, ty: int) -> Planes {
    Seq::new(
        2,
        |l: int|
            Seq::new(
                192,
                |y: int| Seq::new(256, |x: int| comp_cell(raw[l][y][x], prev, l, y, x, tx, ty)),
            ),
    )
}

/// Decodes the frame whose bytes are `f` on top of the previous frame `prev`:
/// a new frame stands alone, any other is composed with `prev`.
pub open spec fn step(f: Seq<u8>, prev: Planes) -> Option<Planes> {
    match raw_frame(f) {
        None => None,
        Some(raw) => Some(
            if is_new(f) {
                raw
            } else {
                compose(raw, prev, trans_x(f), trans_y(f))
            },
        ),
    }
}

/// Frame `i` of the stream `d` with the frame offsets `offs`. A frame that is
/// not new is composed with frame `i - 1`, and frame 0 with a blank frame;
/// `None` where some frame of that chain runs past the end of the stream.
pub open spec fn frame_planes(d: Seq<u8>, offs: Seq<u32>, i: int) -> Option<Planes>
    decreases i,
{
    if i < 0 || i >= offs.len() {
        None
    } else if i == 0 || is_new(frame_bytes(d, offs[i] as int)) {
        step(frame_bytes(d, offs[i] as int), blank())
    } else {
        match frame_planes(d, offs, i - 1) {
            None => None,
            Some(prev) => step(frame_bytes(d, offs[i] as int), prev),
        }
    }
}

/// Every frame has two layers of 192 rows of 256 cells.
pub open spec fn well_shaped(p: Planes) -> bool {
    p.len() == 2 && forall|l: int|
        0 <= l < 2 ==> #[trigger] p[l].len() == 192 && forall|y: int|
            0 <= y < 192 ==> #[trigger] p[l][y].len() == 256
}

/// The value a decoded cell takes: the frame's own bit for a new frame,
/// else that bit composed with the previous frame.
pub open spec fn out_cell(v: u8, prev: Planes, l: int, y: int, x: int, tx: int, ty: int, fresh: bool) -> u8 {
    if fresh {
        v
    } else {
        comp_cell(v, prev, l, y, x, tx, ty)
    }
}

proof fn lemma_ones_mono(m: u32, a: int, b: int)
    requires
        0 <= a <= b,
    ensures
        ones_before(m, a) <= ones_before(m, b),
        ones_before(m, b) <= b,
        0 <= ones_before(m, a),
    decreases b,
{
    if b > 0 {
        if a < b {
            lemma_ones_mono(m, a, b - 1);
        } else {
            lemma_ones_mono(m, a - 1, b - 1);
        }
    }
}

/// Expands the bits of `b` into eight cells, least significant first.
fn push_bits(row: &mut Vec<u8>, b: u8)
    ensures
        final(row)@.len() == old(row)@.len() + 8,
        forall|x: int| 0 <= x < old(row)@.len() ==> final(row)@[x] == old(row)@[x],
        forall|k: int| 0 <= k < 8 ==> #[trigger] final(row)@[old(row)@.len() + k] == bit_of(b, k),
{
    let ghost n = row@.len();
    let mut k: u8 = 0;
    while k < 8
        invariant
            k <= 8,
            row@.len() == n + k,
            forall|x: int| 0 <= x < n ==> row@[x] == old(row)@[x],
            old(row)@.len() == n,
            forall|j: int| 0 <= j < k ==> #[trigger] row@[n + j] == bit_of(b, j),
        decreases 8 - k,
    {
        row.push((b >> k) & 1u8);
        k += 1;
    }
}

/// Pushes `n` copies of `v`.
fn push_fill(row: &mut Vec<u8>, v: u8, n: usize)
    ensures
        final(row)@.len() == old(row)@.len() + n,
        forall|x: int| 0 <= x < old(row)@.len() ==> final(row)@[x] == old(row)@[x],
        forall|k: int| 0 <= k < n ==> #[trigger] final(row)@[old(row)@.len() + k] == v,
{
    let ghost len0 = row@.len();
    let mut k: usize = 0;
    while k < n
        invariant
            k <= n,
            row@.len() == len0 + k,
            old(row)@.len() == len0,
            forall|x: int| 0 <= x < len0 ==> row@[x] == old(row)@[x],
            forall|j: int| 0 <= j < k ==> #[trigger] row@[len0 + j] == v,
        decreases n - k,
    {
        row.push(v);
        k += 1;
    }
}

/// Decodes one row of line type `t` whose data starts at `pos`, in the frame
/// that starts at `base`: the row and the position after its data.
pub fn read_row(d: &Vec<u8>, base: usize, pos: usize, t: u8) -> (r: Result<(Vec<u8>, usize), PpmError>)
    requires
        base <= pos <= d.len(),
        t < 4,
    ensures
        match decode_row(frame_bytes(d@, base as int), pos - base, t) {
            None => r is Err,
            Some((row, e)) => r is Ok && r->Ok_0.0@ == row && r->Ok_0.1 == base + e,
        },
{
    let ghost f = frame_bytes(d@, base as int);
    let ghost p = pos - base;
    assert(f.len() == d@.len() - base);
    let mut row: Vec<u8> = Vec::with_capacity(256);
    if t == 0 {
        let ghost e = row@.len();
        push_fill(&mut row, 0u8, 256);
        assert forall|x: int| 0 <= x < 256 implies row@[x] == 0u8 by {
            assert(row@[e + x] == 0u8);
        }
        assert(row@ =~= Seq::new(256, |x: int| 0u8));
        return Ok((row, pos));
    }
    if t == 3 {
        if d.len() - pos < 32 {
            return Err(PpmError::Truncated);
        }
        let mut c: usize = 0;
        while c < 32
            invariant
                c <= 32,
                base <= pos,
                pos + 32 <= d.len(),
                f == frame_bytes(d@, base as int),
                p == pos - base,
                row@.len() == c * 8,
                forall|x: int| 0 <= x < c * 8 ==> row@[x] == raw_row(f, p)[x],
            decreases 32 - c,
        {
            let b = d[pos + c];
            let ghost before = row@;
            push_bits(&mut row, b);
            assert forall|x: int| 0 <= x < (c + 1) * 8 implies row@[x] == raw_row(f, p)[x] by {
                if x >= c * 8 {
                    let k = x - c * 8;
                    assert(row@[before.len() + k] == bit_of(b, k));
                    assert(x / 8 == c && x % 8 == k);
                    assert(f[p + c] == d@[pos + c]);
                }
            }
            c += 1;
        }
        assert(row@ =~= raw_row(f, p));
        return Ok((row, pos + 32));
    }
    let m = match read_u32_be(d, pos) {
        Ok(v) => v,
        Err(e) => {
            return Err(e);
        },
    };
    assert(be32(f, p) == be32(d@, pos as int));
    let fill: u8 = if t == 2 {
        1
    } else {
        0
    };
    let mut q: usize = pos + 4;
    let mut g: usize = 0;
    while g < 32
        invariant
            g <= 32,
            t == 1 || t == 2,
            base <= pos,
            pos + 4 <= d.len(),
            f == frame_bytes(d@, base as int),
            f.len() == d@.len() - base,
            p == pos - base,
            m == be32(f, p),
            fill == (if t == 2 {
                1u8
            } else {
                0u8
            }),
            q == pos + 4 + ones_before(m, g as int),
            q <= d.len(),
            row@.len() == g * 8,
            forall|x: int|
                0 <= x < g * 8 ==> row@[x] == chunk_row(f, p + 4, m, fill)[x],
        decreases 32 - g,
    {
        let ghost before = row@;
        proof {
            lemma_ones_mono(m, g as int, g as int);
        }
        if (m >> ((31 - g) as u32)) & 1u32 == 1u32 {
            if q >= d.len() {
                proof {
                    assert(mask_bit(m, g as int));
                    assert(ones_before(m, g as int + 1) == ones_before(m, g as int) + 1);
                    lemma_ones_mono(m, g as int + 1, 32);
                }
                return Err(PpmError::Truncated);
            }
            let b = d[q];
            push_bits(&mut row, b);
            assert forall|x: int| 0 <= x < (g + 1) * 8 implies row@[x] == chunk_row(
                f,
                p + 4,
                m,
                fill,
            )[x] by {
                if x >= g * 8 {
                    let k = x - g * 8;
                    assert(row@[before.len() + k] == bit_of(b, k));
                    assert(x / 8 == g && x % 8 == k);
                    assert(f[p + 4 + ones_before(m, g as int)] == d@[q as int]);
                }
            }
            q += 1;
        } else {
            push_fill(&mut row, fill, 8);
            assert forall|x: int| 0 <= x < (g + 1) * 8 implies row@[x] == chunk_row(
                f,
                p + 4,
                m,
                fill,
            )[x] by {
                if x >= g * 8 {
                    let k = x - g * 8;
                    assert(row@[before.len() + k] == fill);
                    assert(x / 8 == g);
                }
            }
        }
        g += 1;
    }
    proof {
        lemma_ones_mono(m, 0, 32);
    }
    assert(row@ =~= chunk_row(f, p + 4, m, fill));
    Ok((row, q))
}

/// Cells that lie outside row `y` of layer `l` are the same in `a` and `b`.
pub open spec fn same_outside_row(a: Seq<u8>, b: Seq<u8>, l: int, y: int) -> bool {
    forall|k: int|
        0 <= k < 98304 && !(l * 49152 + y * 256 <= k < l * 49152 + y * 256 + 256) ==> #[trigger] a[k]
            == b[k]
}

/// Cells that lie outside layer `l` are the same in `a` and `b`.
pub open spec fn same_outside_layer(a: Seq<u8>, b: Seq<u8>, l: int) -> bool {
    forall|k: int| 0 <= k < 98304 && !(l * 49152 <= k < l * 49152 + 49152) ==> #[trigger] a[k] == b[k]
}

/// Writes row `y` of layer `l`: the decoded `row`, composed with the previous
/// frame unless the frame is `fresh`.
fn put_row(
    cur: &mut Vec<u8>,
    prev: &Vec<u8>,
    row: &Vec<u8>,
    l: usize,
    y: usize,
    tx: i32,
    ty: i32,
    fresh: bool,
)
    requires
        old(cur)@.len() == 98304,
        prev@.len() == 98304,
        row@.len() == 256,
        l < 2,
        y < 192,
        -128 <= tx < 128,
        -128 <= ty < 128,
    ensures
        final(cur)@.len() == 98304,
        forall|x: int|
            0 <= x < 256 ==> #[trigger] cell(final(cur)@, l as int, y as int, x) == out_cell(
                row@[x],
                planes_of(prev@),
                l as int,
                y as int,
                x,
                tx as int,
                ty as int,
                fresh,
            ),
        same_outside_row(final(cur)@, old(cur)@, l as int, y as int),
{
    let start: usize = l * 49152 + y * 256;
    let sy: i32 = y as i32 - ty;
    let mut x: usize = 0;
    while x < 256
        invariant
            x <= 256,
            cur@.len() == 98304,
            prev@.len() == 98304,
            row@.len() == 256,
            l < 2,
            y < 192,
            -128 <= tx < 128,
            start == l * 49152 + y * 256,
            sy == y - ty,
            forall|j: int|
                0 <= j < x ==> #[trigger] cell(cur@, l as int, y as int, j) == out_cell(
                    row@[j],
                    planes_of(prev@),
                    l as int,
                    y as int,
                    j,
                    tx as int,
                    ty as int,
                    fresh,
                ),
            same_outside_row(cur@, old(cur)@, l as int, y as int),
        decreases 256 - x,
    {
        let sx: i32 = x as i32 - tx;
        let mut v: u8 = row[x];
        if !fresh && 0 <= sy && sy < 192 && 0 <= sx && sx < 256 {
            let src: usize = l * 49152 + (sy as usize) * 256 + sx as usize;
            v = v ^ prev[src];
            assert(planes_of(prev@)[l as int][sy as int][sx as int] == prev@[src as int]);
        }
        assert(v == out_cell(
            row@[x as int],
            planes_of(prev@),
            l as int,
            y as int,
            x as int,
            tx as int,
            ty as int,
            fresh,
        ));
        let ghost before = cur@;
        cur.set(start + x, v);
        assert forall|j: int|
            0 <= j < x + 1 implies #[trigger] cell(cur@, l as int, y as int, j) == out_cell(
            row@[j],
            planes_of(prev@),
            l as int,
            y as int,
            j,
            tx as int,
            ty as int,
            fresh,
        ) by {
            if j < x {
                assert(cell(before, l as int, y as int, j) == cell(cur@, l as int, y as int, j));
            }
        }
        x += 1;
    }
}

/// Decodes the 192 rows of layer `l` into `cur`: line types at `tb`, row data
/// from `pos` on, in the frame that starts at `base`. Returns the position
/// after the layer's data.
fn read_layer(
    d: &Vec<u8>,
    base: usize,
    tb: usize,
    pos: usize,
    l: usize,
    cur: &mut Vec<u8>,
    prev: &Vec<u8>,
    tx: i32,
    ty: i32,
    fresh: bool,
) -> (r: Result<usize, PpmError>)
    requires
        base <= tb,
        tb + 48 <= d@.len(),
        base <= pos <= d@.len(),
        old(cur)@.len() == 98304,
        prev@.len() == 98304,
        l < 2,
        -128 <= tx < 128,
        -128 <= ty < 128,
    ensures
        final(cur)@.len() == 98304,
        same_outside_layer(final(cur)@, old(cur)@, l as int),
        match layer_rows(frame_bytes(d@, base as int), tb - base, pos - base, 192) {
            None => r is Err,
            Some((rows, e)) => r == Ok::<usize, PpmError>((base + e) as usize) && rows.len() == 192
                && (forall|y: int| 0 <= y < 192 ==> #[trigger] rows[y].len() == 256) && (forall|
                y: int,
                x: int,
            |
                0 <= y < 192 && 0 <= x < 256 ==> #[trigger] cell(final(cur)@, l as int, y, x)
                    == out_cell(
                    rows[y][x],
                    planes_of(prev@),
                    l as int,
                    y,
                    x,
                    tx as int,
                    ty as int,
                    fresh,
                )),
        },
{
    let ghost f = frame_bytes(d@, base as int);
    let ghost rows: Seq<Seq<u8>> = seq![];
    let mut q: usize = pos;
    let mut y: usize = 0;
    while y < 192
        invariant
            y <= 192,
            base <= tb,
            tb + 48 <= d@.len(),
            base <= q <= d@.len(),
            f == frame_bytes(d@, base as int),
            cur@.len() == 98304,
            prev@.len() == 98304,
            l < 2,
            -128 <= tx < 128,
            -128 <= ty < 128,
            layer_rows(f, tb - base, pos - base, y as nat) == Some((rows, q - base)),
            rows.len() == y,
            forall|j: int| 0 <= j < y ==> #[trigger] rows[j].len() == 256,
            forall|j: int, x: int|
                0 <= j < y && 0 <= x < 256 ==> #[trigger] cell(cur@, l as int, j, x) == out_cell(
                    rows[j][x],
                    planes_of(prev@),
                    l as int,
                    j,
                    x,
                    tx as int,
                    ty as int,
                    fresh,
                ),
            same_outside_layer(cur@, old(cur)@, l as int),
        decreases 192 - y,
    {
        assert(y / 4 < 48);
        assert(tb + y / 4 < d.len());
        let tbyte = d[tb + y / 4];
        let lt: u8 = (tbyte >> (((y % 4) * 2) as u8)) & 3u8;
        assert(lt < 4) by (bit_vector)
            requires
                lt == (tbyte >> (((y % 4) * 2) as u8)) & 3u8,
        ;
        assert(f[tb - base + y / 4] == tbyte);
        assert(lt == line_type(f, tb - base, y as int));
        let (row, nq) = match read_row(d, base, q, lt) {
            Ok(v) => v,
            Err(e) => {
                proof {
                    assert(layer_rows(f, tb - base, pos - base, (y + 1) as nat) is None);
                    lemma_layer_none(f, tb - base, pos - base, (y + 1) as nat, 192);
                }
                return Err(e);
            },
        };
        let ghost old_cur = cur@;
        put_row(cur, prev, &row, l, y, tx, ty, fresh);
        proof {
            let rows2 = rows.push(row@);
            assert forall|j: int, x: int|
                0 <= j < y + 1 && 0 <= x < 256 implies #[trigger] cell(cur@, l as int, j, x)
                == out_cell(
                rows2[j][x],
                planes_of(prev@),
                l as int,
                j,
                x,
                tx as int,
                ty as int,
                fresh,
            ) by {
                if j < y {
                    assert(cell(old_cur, l as int, j, x) == cell(cur@, l as int, j, x));
                }
            }
            rows = rows2;
        }
        q = nq;
        y += 1;
    }
    Ok(q)
}

proof fn lemma_layer_bounds(f: Seq<u8>, tb: int, p: int, n: nat)
    requires
        0 <= p <= f.len(),
        layer_rows(f, tb, p, n) is Some,
    ensures
        p <= layer_rows(f, tb, p, n)->Some_0.1 <= f.len(),
    decreases n,
{
    if n > 0 {
        lemma_layer_bounds(f, tb, p, (n - 1) as nat);
    }
}

proof fn lemma_layer_none(f: Seq<u8>, tb: int, p: int, n: nat, m: nat)
    requires
        n <= m,
        layer_rows(f, tb, p, n) is None,
    ensures
        layer_rows(f, tb, p, m) is None,
    decreases m - n,
{
    if n < m {
        lemma_layer_none(f, tb, p, n + 1, m);
    }
}

/// A buffer holds the frame whose every cell it holds.
pub proof fn lemma_planes_of_cells(s: Seq<u8>, p: Planes)
    requires
        well_shaped(p),
        forall|l: int, y: int, x: int|
            0 <= l < 2 && 0 <= y < 192 && 0 <= x < 256 ==> #[trigger] cell(s, l, y, x) == p[l][y][x],
    ensures
        planes_of(s) == p,
{
    assert forall|l: int, y: int| 0 <= l < 2 && 0 <= y < 192 implies #[trigger] planes_of(s)[l][y]
        =~= p[l][y] by {
        assert(p[l].len() == 192);
        assert(p[l][y].len() == 256);
        assert forall|x: int| 0 <= x < 256 implies planes_of(s)[l][y][x] == p[l][y][x] by {
            assert(cell(s, l, y, x) == p[l][y][x]);
        }
    }
    assert forall|l: int| 0 <= l < 2 implies #[trigger] planes_of(s)[l] =~= p[l] by {
        assert(p[l].len() == 192);
        assert forall|y: int| 0 <= y < 192 implies planes_of(s)[l][y] == p[l][y] by {
            assert(planes_of(s)[l][y] =~= p[l][y]);
        }
    }
    assert(planes_of(s) =~= p);
}

/// A buffer that holds, cell by cell, the decoded layers of `f` composed as
/// `out_cell` says, holds the frame that `step` gives.
proof fn lemma_decoded_frame(f: Seq<u8>, s: Seq<u8>, prev: Planes, l0: Seq<Seq<u8>>, l1: Seq<Seq<u8>>)
    requires
        raw_frame(f) == Some(seq![l0, l1]),
        s.len() == 98304,
        l0.len() == 192,
        l1.len() == 192,
        forall|y: int| 0 <= y < 192 ==> #[trigger] l0[y].len() == 256,
        forall|y: int| 0 <= y < 192 ==> #[trigger] l1[y].len() == 256,
        forall|l: int, y: int, x: int|
            0 <= l < 2 && 0 <= y < 192 && 0 <= x < 256 ==> #[trigger] cell(s, l, y, x) == out_cell(
                seq![l0, l1][l][y][x],
                prev,
                l,
                y,
                x,
                trans_x(f),
                trans_y(f),
                is_new(f),
            ),
    ensures
        step(f, prev) == Some(planes_of(s)),
{
    let target = step(f, prev)->Some_0;
    let raw = seq![l0, l1];
    assert forall|l: int, y: int, x: int|
        0 <= l < 2 && 0 <= y < 192 && 0 <= x < 256 implies #[trigger] cell(s, l, y, x)
        == target[l][y][x] by {
        assert(cell(s, l, y, x) == out_cell(raw[l][y][x], prev, l, y, x, trans_x(f), trans_y(f), is_new(f)));
    }
    assert(well_shaped(target));
    lemma_planes_of_cells(s, target);
}

/// A byte as a two's complement signed value.
fn to_signed(b: u8) -> (r: i32)
    ensures
        r == signed(b),
        -128 <= r < 128,
{
    if b < 128 {
        b as i32
    } else {
        b as i32 - 256
    }
}

/// Decodes the frame that starts at `base` into `cur`, composing it with the
/// frame in `prev` unless it is a new frame.
pub fn decode_frame(d: &Vec<u8>, base: usize, cur: &mut Vec<u8>, prev: &Vec<u8>) -> (r: Result<
    (),
    PpmError,
>)
    requires
        old(cur)@.len() == 98304,
        prev@.len() == 98304,
    ensures
        final(cur)@.len() == 98304,
        match step(frame_bytes(d@, base as int), planes_of(prev@)) {
            None => r is Err,
            Some(p) => r is Ok && planes_of(final(cur)@) == p,
        },
{
    let ghost f = frame_bytes(d@, base as int);
    let h = match read_u8(d, base) {
        Ok(v) => v,
        Err(e) => {
            return Err(e);
        },
    };
    assert(base < d.len());
    assert(f[0] == h);
    let fresh = h & 0x80u8 != 0;
    let translated = (h >> 5u8) & 3u8 != 0;
    let mut tx: i32 = 0;
    let mut ty: i32 = 0;
    let mut t: usize = 1;
    if translated {
        let bx = match read_u8(d, base + 1) {
            Ok(v) => v,
            Err(e) => {
                return Err(e);
            },
        };
        assert(base + 1 < d.len());
        let by = match read_u8(d, base + 2) {
            Ok(v) => v,
            Err(e) => {
                return Err(e);
            },
        };
        assert(f[1] == bx && f[2] == by);
        tx = to_signed(bx);
        ty = to_signed(by);
        t = 3;
    }
    assert(t == tables_at(f) && tx == trans_x(f) && ty == trans_y(f) && fresh == is_new(f));
    if d.len() - base < t + 96 {
        return Err(PpmError::Truncated);
    }
    let ghost c0 = cur@;
    let p0 = match read_layer(d, base, base + t, base + t + 96, 0, cur, prev, tx, ty, fresh) {
        Ok(v) => v,
        Err(e) => {
            return Err(e);
        },
    };
    let ghost c1 = cur@;
    proof {
        lemma_layer_bounds(f, t as int, t + 96, 192);
    }
    let p1 = match read_layer(d, base, base + t + 48, p0, 1, cur, prev, tx, ty, fresh) {
        Ok(v) => v,
        Err(e) => {
            return Err(e);
        },
    };
    proof {
        let (l0, e0) = layer_rows(f, t as int, t + 96, 192)->Some_0;
        let (l1, e1) = layer_rows(f, t + 48, e0, 192)->Some_0;
        let raw = seq![l0, l1];
        assert forall|l: int, y: int, x: int|
            0 <= l < 2 && 0 <= y < 192 && 0 <= x < 256 implies #[trigger] cell(cur@, l, y, x)
            == out_cell(raw[l][y][x], planes_of(prev@), l, y, x, tx as int, ty as int, fresh) by {
            if l == 0 {
                assert(cell(c1, l, y, x) == cell(cur@, l, y, x));
            }
        }
        lemma_decoded_frame(f, cur@, planes_of(prev@), l0, l1);
    }
    Ok(())
}

/// A new frame depends on its own bytes alone: two streams whose bytes agree
/// from the frame's offset on give it the same layers, whatever precedes it.
pub proof fn lemma_new_frame_stands_alone(
    d1: Seq<u8>,
    offs1: Seq<u32>,
    i: int,
    d2: Seq<u8>,
    offs2: Seq<u32>,
    j: int,
)
    requires
        0 <= i < offs1.len(),
        0 <= j < offs2.len(),
        frame_bytes(d1, offs1[i] as int) == frame_bytes(d2, offs2[j] as int),
        is_new(frame_bytes(d1, offs1[i] as int)),
    ensures
        frame_planes(d1, offs1, i) == frame_planes(d2, offs2, j),
{
}

/// Decoding a frame that is not new on top of the decoded previous frame
/// gives the frame as decoded from nothing: the chain is resolved the same way.
pub proof fn lemma_chain_resolved(d: Seq<u8>, offs: Seq<u32>, i: int, prev: Planes)
    requires
        0 < i < offs.len(),
        !is_new(frame_bytes(d, offs[i] as int)),
        frame_planes(d, offs, i - 1) == Some(prev),
    ensures
        frame_planes(d, offs, i) == step(frame_bytes(d, offs[i] as int), prev),
{
}

} // verus!
