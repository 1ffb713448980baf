use vstd::prelude::*;
use crate::tile::{Radiance, Tile, TileView};

verus! {

/// Length of the header of a tile on the wire.
pub const HEADER_LEN: usize = 20;

/// Length of one pixel on the wire.
pub const PIXEL_LEN: usize = 12;

/// The four bytes of a word, least significant first.
pub open spec fn word_bytes(x: u32) -> Seq<u8> {
    seq![
        (x % 256) as u8,
        ((x / 256) % 256) as u8,
        ((x / 65536) % 256) as u8,
        (x / 16777216) as u8,
    ]
}

/// The word whose four bytes, least significant first, stand at `at`.
pub open spec fn word_at(bytes: Seq<u8>, at: int) -> u32 {
    (bytes[at] + 256 * bytes[at + 1] + 65536 * bytes[at + 2] + 16777216 * bytes[at + 3]) as u32
}

/// The twenty bytes in front of a tile's pixels: sample count, width, height,
/// left and top, a word each.
pub open spec fn header_bytes(t: TileView) -> Seq<u8> {
    word_bytes(t.sample_count as u32) + word_bytes(t.width as u32) + word_bytes(t.height as u32)
        + word_bytes(t.left as u32) + word_bytes(t.top as u32)
}

/// The twelve bytes of a pixel: red, green and blue, a word each.
pub open spec fn pixel_bytes(p: Radiance) -> Seq<u8> {
    word_bytes(p.r) + word_bytes(p.g) + word_bytes(p.b)
}

/// A tile that the wire format can carry: it has one entry per pixel and its
/// five numbers fit a word each.
pub open spec fn encodable(t: TileView) -> bool {
    &&& t.wf()
    &&& t.sample_count <= u32::MAX
    &&& t.width <= u32::MAX
    &&& t.height <= u32::MAX
    &&& t.left <= u32::MAX
    &&& t.top <= u32::MAX
}

/// A tile on the wire: the header, then the pixels in buffer order.
pub open spec fn wire_bytes(t: TileView) -> Seq<u8> {
    Seq::new(
        (HEADER_LEN + PIXEL_LEN * t.data.len()) as nat,
        |i: int|
            if i < HEADER_LEN {
                header_bytes(t)[i]
            } else {
                pixel_bytes(t.data[(i - HEADER_LEN) / (PIXEL_LEN as int)])[(i - HEADER_LEN) % (
                PIXEL_LEN as int)]
            },
    )
}

/// The bytes hold a header and exactly the pixels that the header announces.
pub open spec fn framed(bytes: Seq<u8>) -> bool {
    &&& bytes.len() >= HEADER_LEN
    &&& bytes.len() - HEADER_LEN == PIXEL_LEN * (word_at(bytes, 4) * word_at(bytes, 8))
}

/// The pixel that stands at position `i` of the pixels on the wire.
pub open spec fn pixel_at(bytes: Seq<u8>, i: int) -> Radiance {
    Radiance {
        r: word_at(bytes, HEADER_LEN + PIXEL_LEN * i),
        g: word_at(bytes, HEADER_LEN + PIXEL_LEN * i + 4),
        b: word_at(bytes, HEADER_LEN + PIXEL_LEN * i + 8),
    }
}

/// The tile that framed bytes carry.
pub open spec fn unframed(bytes: Seq<u8>) -> TileView {
    TileView {
        sample_count: word_at(bytes, 0) as usize,
        width: word_at(bytes, 4) as usize,
        height: word_at(bytes, 8) as usize,
        left: word_at(bytes, 12) as usize,
        top: word_at(bytes, 16) as usize,
        data: Seq::new(
            (word_at(bytes, 4) * word_at(bytes, 8)) as nat,
            |i: int| pixel_at(bytes, i),
        ),
    }
}

/// Lemma: a word is read back from its bytes, wherever they stand.
pub proof fn lemma_word_round_trip(bytes: Seq<u8>, at: int, x: u32)
    requires
        0 <= at,
        at + 4 <= bytes.len(),
        forall|j: int| 0 <= j < 4 ==> bytes[at + j] == #[trigger] word_bytes(x)[j],
    ensures
        word_at(bytes, at) == x,
{
    assert(bytes[at + 0] == word_bytes(x)[0]);
    assert(bytes[at + 1] == word_bytes(x)[1]);
    assert(bytes[at + 2] == word_bytes(x)[2]);
    assert(bytes[at + 3] == word_bytes(x)[3]);
}

/// Law: what is written to the wire is read back unchanged.
pub proof fn lemma_wire_round_trip(t: TileView)
    requires
        encodable(t),
    ensures
        framed(wire_bytes(t)),
        unframed(wire_bytes(t)) == t,
{
    let bytes = wire_bytes(t);
    let h = header_bytes(t);
    assert(h.len() == 20);
    assert forall|j: int| 0 <= j < 4 implies bytes[0 + j] == #[trigger] word_bytes(
        t.sample_count as u32,
    )[j] by {
        assert(bytes[j] == h[j]);
    }
    assert forall|j: int| 0 <= j < 4 implies bytes[4 + j] == #[trigger] word_bytes(
        t.width as u32,
    )[j] by {
        assert(bytes[4 + j] == h[4 + j]);
    }
    assert forall|j: int| 0 <= j < 4 implies bytes[8 + j] == #[trigger] word_bytes(
        t.height as u32,
    )[j] by {
        assert(bytes[8 + j] == h[8 + j]);
    }
    assert forall|j: int| 0 <= j < 4 implies bytes[12 + j] == #[trigger] word_bytes(
        t.left as u32,
    )[j] by {
        assert(bytes[12 + j] == h[12 + j]);
    }
    assert forall|j: int| 0 <= j < 4 implies bytes[16 + j] == #[trigger] word_bytes(
        t.top as u32,
    )[j] by {
        assert(bytes[16 + j] == h[16 + j]);
    }
    lemma_word_round_trip(bytes, 0, t.sample_count as u32);
    lemma_word_round_trip(bytes, 4, t.width as u32);
    lemma_word_round_trip(bytes, 8, t.height as u32);
    lemma_word_round_trip(bytes, 12, t.left as u32);
    lemma_word_round_trip(bytes, 16, t.top as u32);
    let back = unframed(bytes);
    assert(back.data.len() == t.data.len());
    assert forall|i: int| 0 <= i < t.data.len() implies back.data[i] == t.data[i] by {
        let p = t.data[i];
        let at = 20 + 12 * i;
        assert forall|j: int| 0 <= j < 4 implies bytes[at + j] == #[trigger] word_bytes(p.r)[j] by {
            assert((at + j - 20) / 12 == i && (at + j - 20) % 12 == j);
            assert(pixel_bytes(p)[j] == word_bytes(p.r)[j]);
        }
        assert forall|j: int| 0 <= j < 4 implies bytes[at + 4 + j] == #[trigger] word_bytes(
            p.g,
        )[j] by {
            assert((at + 4 + j - 20) / 12 == i && (at + 4 + j - 20) % 12 == 4 + j);
            assert(pixel_bytes(p)[4 + j] == word_bytes(p.g)[j]);
        }
        assert forall|j: int| 0 <= j < 4 implies bytes[at + 8 + j] == #[trigger] word_bytes(
            p.b,
        )[j] by {
            assert((at + 8 + j - 20) / 12 == i && (at + 8 + j - 20) % 12 == 8 + j);
            assert(pixel_bytes(p)[8 + j] == word_bytes(p.b)[j]);
        }
        lemma_word_round_trip(bytes, at, p.r);
        lemma_word_round_trip(bytes, at + 4, p.g);
        lemma_word_round_trip(bytes, at + 8, p.b);
    }
    assert(back.data =~= t.data);
}

fn push_word(out: &mut Vec<u8>, x: u32)
    ensures
        final(out)@ == old(out)@ + word_bytes(x),
{
    out.push((x % 256) as u8);
    out.push(((x / 256) % 256) as u8);
    out.push(((x / 65536) % 256) as u8);
    out.push((x / 16777216) as u8);
    assert(out@ =~= old(out)@ + word_bytes(x));
}

fn read_word(bytes: &Vec<u8>, at: usize) -> (x: u32)
    requires
        at + 4 <= bytes.len(),
    ensures
        x == word_at(bytes@, at as int),
{
    let b0: u32 = bytes[at] as u32;
    let b1: u32 = bytes[at + 1] as u32;
    let b2: u32 = bytes[at + 2] as u32;
    let b3: u32 = bytes[at + 3] as u32;
    b0 + 256 * b1 + 65536 * b2 + 16777216 * b3
}

fn narrow(v: usize) -> (r: Option<u32>)
    ensures
        r == (if v <= u32::MAX {
            Some(v as u32)
        } else {
            None
        }),
{
    if v <= 0xffff_ffff {
        Some(v as u32)
    } else {
        None
    }
}

impl Tile {
    /// Writes the tile in wire format.  `None` when the tile cannot be
    /// carried: its buffer does not match its size, or one of its numbers
    /// needs more than a word.
    pub fn to_wire(&self) -> (r: Option<Vec<u8>>)
        ensures
            match r {
                Some(bytes) => encodable(self@) && bytes@ == wire_bytes(self@),
                None => !encodable(self@),
            },
    {
        if !self.is_well_formed() {
            return None;
        }
        let sample_count = match narrow(self.sample_count) {
            Some(v) => v,
            None => { return None; },
        };
        let width = match narrow(self.width) {
            Some(v) => v,
            None => { return None; },
        };
        let height = match narrow(self.height) {
            Some(v) => v,
            None => { return None; },
        };
        let left = match narrow(self.left) {
            Some(v) => v,
            None => { return None; },
        };
        let top = match narrow(self.top) {
            Some(v) => v,
            None => { return None; },
        };
        let mut out: Vec<u8> = Vec::new();
        push_word(&mut out, sample_count);
        push_word(&mut out, width);
        push_word(&mut out, height);
        push_word(&mut out, left);
        push_word(&mut out, top);
        assert(out@ =~= header_bytes(self@));
        let ghost t = self@;
        let ghost want = wire_bytes(t);
        let mut i: usize = 0;
        while i < self.data.len()
            invariant
                t == self@,
                want == wire_bytes(t),
                i <= self.data.len(),
                out@.len() == 20 + 12 * i,
                forall|k: int| 0 <= k < out@.len() ==> out@[k] == want[k],
            decreases self.data.len() - i,
        {
            let p = self.data[i];
            let ghost before = out@;
            push_word(&mut out, p.r);
            push_word(&mut out, p.g);
            push_word(&mut out, p.b);
            proof {
                assert(out@ =~= before + pixel_bytes(p));
                assert forall|k: int| 0 <= k < out@.len() implies out@[k] == want[k] by {
                    if k >= before.len() {
                        let j = k - before.len();
                        assert((k - 20) / 12 == i && (k - 20) % 12 == j);
                        assert(out@[k] == pixel_bytes(p)[j]);
                    } else {
                        assert(out@[k] == before[k]);
                    }
                }
            }
            i += 1;
        }
        assert(out@ =~= want);
        Some(out)
    }

    /// Reads a tile in wire format.  `None` when the bytes are not a header
    /// followed by exactly the pixels it announces.
    pub fn from_wire(bytes: &Vec<u8>) -> (r: Option<Tile>)
        ensures
            match r {
                Some(tile) => framed(bytes@) && tile@ == unframed(bytes@) && tile.wf(),
                None => !framed(bytes@),
            },
    {
        let len: usize = bytes.len();
        if len < HEADER_LEN {
            return None;
        }
        let sample_count = read_word(bytes, 0);
        let width = read_word(bytes, 4);
        let height = read_word(bytes, 8);
        let left = read_word(bytes, 12);
        let top = read_word(bytes, 16);
        let payload: usize = len - HEADER_LEN;
        assert(width * height <= 0xffff_ffff * 0xffff_ffff) by (nonlinear_arith)
            requires
                0 <= width <= 0xffff_ffff,
                0 <= height <= 0xffff_ffff,
        ;
        let pixels: u64 = (width as u64) * (height as u64);
        if payload % PIXEL_LEN != 0 || (payload / PIXEL_LEN) as u64 != pixels {
            return None;
        }
        let count: usize = payload / PIXEL_LEN;
        assert(count == width * height);
        let mut data: Vec<Radiance> = Vec::new();
        let mut i: usize = 0;
        while i < count
            invariant
                len == bytes.len(),
                len == 20 + 12 * count,
                i <= count,
                data.len() == i,
                forall|k: int| 0 <= k < i ==> data@[k] == pixel_at(bytes@, k),
            decreases count - i,
        {
            let at: usize = HEADER_LEN + PIXEL_LEN * i;
            let r = read_word(bytes, at);
            let g = read_word(bytes, at + 4);
            let b = read_word(bytes, at + 8);
            data.push(Radiance { r, g, b });
            i += 1;
        }
        let tile = Tile {
            sample_count: sample_count as usize,
            width: width as usize,
            height: height as usize,
            left: left as usize,
            top: top as usize,
            data,
        };
        assert(tile@.data =~= unframed(bytes@).data);
        Some(tile)
    }
}

} // verus!
