//! The dense RGBA grid: the in-memory image form between the PNG side and
//! the sigma codec, and the materialization of decoded records into it.

use vstd::prelude::*;
use crate::records::PixelRecord;

verus! {

/// One cell of the dense grid.
#[derive(Clone, Copy, PartialEq, Eq, Structural, Debug)]
pub struct Pixel {
    pub r: u8,
    pub g: u8,
    pub b: u8,
    pub a: u8,
}

/// The default cell: fully transparent, channels zero.
pub open spec fn transparent() -> Pixel {
    Pixel { r: 0, g: 0, b: 0, a: 0 }
}

/// An all-transparent grid of `w * h` cells.
pub open spec fn blank(w: int, h: int) -> Seq<Pixel> {
    Seq::new((w * h) as nat, |i: int| transparent())
}

/// One record written onto row-major cells: only a record with nonzero
/// alpha and in-bounds coordinates changes anything.
pub open spec fn place(cells: Seq<Pixel>, w: int, h: int, rec: PixelRecord) -> Seq<Pixel> {
    if rec.a != 0 && (rec.x as int) < w && (rec.y as int) < h {
        cells.update(
            (rec.y as int) * w + (rec.x as int),
            Pixel { r: rec.r, g: rec.g, b: rec.b, a: rec.a },
        )
    } else {
        cells
    }
}

/// All records written in order, later records over earlier ones.
pub open spec fn place_all(cells: Seq<Pixel>, w: int, h: int, recs: Seq<PixelRecord>) -> Seq<
    Pixel,
>
    decreases recs.len(),
{
    if recs.len() == 0 {
        cells
    } else {
        place(place_all(cells, w, h, recs.drop_last()), w, h, recs.last())
    }
}

/// An out-of-bounds or fully transparent record is dropped: removing it
/// leaves the materialized cells unchanged.
pub proof fn lemma_oob_record_dropped(
    cells: Seq<Pixel>,
    w: int,
    h: int,
    recs: Seq<PixelRecord>,
    i: int,
)
    requires
        0 <= i < recs.len(),
        (recs[i].x as int) >= w || (recs[i].y as int) >= h || recs[i].a == 0,
    ensures
        place_all(cells, w, h, recs) == place_all(cells, w, h, recs.remove(i)),
    decreases recs.len(),
{
    if i == recs.len() - 1 {
        assert(place(place_all(cells, w, h, recs.drop_last()), w, h, recs.last())
            == place_all(cells, w, h, recs.drop_last()));
        assert(recs.remove(i) =~= recs.drop_last());
    } else {
        lemma_oob_record_dropped(cells, w, h, recs.drop_last(), i);
        assert(recs.remove(i).drop_last() =~= recs.drop_last().remove(i));
        assert(recs.remove(i).last() == recs.last());
        assert(recs.remove(i).len() > 0);
    }
}

/// A dense RGBA image, cells in row-major order, top row first.
pub struct Grid {
    pub width: u32,
    pub height: u32,
    pub cells: Vec<Pixel>,
}

impl Grid {
    /// The cells fill the declared rectangle exactly.
    pub open spec fn wf(&self) -> bool {
        &&& self.cells@.len() == (self.width as int) * (self.height as int)
        &&& (self.width as int) * (self.height as int) <= usize::MAX
    }

    pub open spec fn cell_at(&self, x: int, y: int) -> Pixel {
        self.cells@[y * (self.width as int) + x]
    }

    /// An all-transparent grid of the given size.
    pub fn new(width: u32, height: u32) -> (g: Grid)
        requires
            (width as int) * (height as int) <= usize::MAX,
        ensures
            g.wf(),
            g.width == width,
            g.height == height,
            g.cells@ == blank(width as int, height as int),
    {
        let n = (width as usize) * (height as usize);
        let mut cells: Vec<Pixel> = Vec::new();
        let mut i: usize = 0;
        while i < n
            invariant
                i <= n,
                cells@.len() == i,
                forall|j: int| 0 <= j < i ==> cells@[j] == transparent(),
            decreases n - i,
        {
            cells.push(Pixel { r: 0, g: 0, b: 0, a: 0 });
            i = i + 1;
        }
        let g = Grid { width, height, cells };
        proof {
            assert(g.cells@ =~= blank(width as int, height as int));
        }
        g
    }

    pub fn get(&self, x: u32, y: u32) -> (p: Pixel)
        requires
            self.wf(),
            x < self.width,
            y < self.height,
        ensures
            p == self.cell_at(x as int, y as int),
    {
        proof {
            vstd::arithmetic::mul::lemma_mul_inequality(
                (y as int) + 1,
                self.height as int,
                self.width as int,
            );
            assert((y as int) * (self.width as int) + (x as int) < (self.width as int) * (
            self.height as int)) by (nonlinear_arith)
                requires
                    x < self.width,
                    ((y as int) + 1) * (self.width as int) <= (self.height as int) * (
                    self.width as int),
            ;
        }
        let idx = (y as usize) * (self.width as usize) + (x as usize);
        self.cells[idx]
    }

    pub fn set(&mut self, x: u32, y: u32, p: Pixel)
        requires
            old(self).wf(),
            x < old(self).width,
            y < old(self).height,
        ensures
            final(self).wf(),
            final(self).width == old(self).width,
            final(self).height == old(self).height,
            final(self).cells@ == old(self).cells@.update(
                (y as int) * (old(self).width as int) + (x as int),
                p,
            ),
    {
        proof {
            vstd::arithmetic::mul::lemma_mul_inequality(
                (y as int) + 1,
                self.height as int,
                self.width as int,
            );
            assert((y as int) * (self.width as int) + (x as int) < (self.width as int) * (
            self.height as int)) by (nonlinear_arith)
                requires
                    x < self.width,
                    ((y as int) + 1) * (self.width as int) <= (self.height as int) * (
                    self.width as int),
            ;
        }
        let idx = (y as usize) * (self.width as usize) + (x as usize);
        self.cells.set(idx, p);
    }
}

/// Builds a grid from flat RGBA bytes, four per cell, row-major; `None`
/// when the byte count does not match the dimensions.
pub fn from_rgba_bytes(width: u32, height: u32, bytes: &[u8]) -> (r: Option<Grid>)
    ensures
        match r {
            Some(g) => {
                &&& g.wf()
                &&& g.width == width
                &&& g.height == height
                &&& bytes@.len() == (width as int) * (height as int) * 4
                &&& forall|i: int|
                    0 <= i < g.cells@.len() ==> #[trigger] g.cells@[i] == (Pixel {
                        r: bytes@[4 * i],
                        g: bytes@[4 * i + 1],
                        b: bytes@[4 * i + 2],
                        a: bytes@[4 * i + 3],
                    })
            },
            None => bytes@.len() != (width as int) * (height as int) * 4,
        },
{
    let n = bytes.len();
    proof {
        assert((width as int) * (height as int) <= 0xffff_ffff_0000_0001int) by (nonlinear_arith)
            requires
                0 <= width as int <= 0xffff_ffffint,
                0 <= height as int <= 0xffff_ffffint,
        ;
    }
    let need: u128 = (width as u128) * (height as u128) * 4;
    if (n as u128) != need {
        return None;
    }
    let count = n / 4;
    let mut cells: Vec<Pixel> = Vec::new();
    let mut i: usize = 0;
    while i < count
        invariant
            i <= count,
            n == bytes@.len(),
            n == count * 4,
            cells@.len() == i,
            forall|j: int|
                0 <= j < i ==> #[trigger] cells@[j] == (Pixel {
                    r: bytes@[4 * j],
                    g: bytes@[4 * j + 1],
                    b: bytes@[4 * j + 2],
                    a: bytes@[4 * j + 3],
                }),
        decreases count - i,
    {
        let base = i * 4;
        let p = Pixel {
            r: *vstd::slice::slice_index_get(bytes, base),
            g: *vstd::slice::slice_index_get(bytes, base + 1),
            b: *vstd::slice::slice_index_get(bytes, base + 2),
            a: *vstd::slice::slice_index_get(bytes, base + 3),
        };
        cells.push(p);
        i = i + 1;
    }
    let g = Grid { width, height, cells };
    proof {
        assert(g.cells@.len() == (width as int) * (height as int)) by (nonlinear_arith)
            requires
                g.cells@.len() == count as int,
                count * 4 == n as int,
                n as int == (width as int) * (height as int) * 4,
        ;
        assert((width as int) * (height as int) <= usize::MAX);
    }
    Some(g)
}

/// The flat RGBA bytes of a grid, four per cell, row-major.
pub fn to_rgba_bytes(g: &Grid) -> (out: Vec<u8>)
    requires
        g.wf(),
    ensures
        out@.len() == g.cells@.len() * 4,
        forall|i: int|
            0 <= i < g.cells@.len() ==> out@[4 * i] == (#[trigger] g.cells@[i]).r && out@[4 * i
                + 1] == g.cells@[i].g && out@[4 * i + 2] == g.cells@[i].b && out@[4 * i + 3]
                == g.cells@[i].a,
{
    let count = g.cells.len();
    let mut out: Vec<u8> = Vec::new();
    let mut i: usize = 0;
    while i < count
        invariant
            i <= count,
            count == g.cells@.len(),
            out@.len() == i * 4,
            forall|j: int|
                0 <= j < i ==> out@[4 * j] == (#[trigger] g.cells@[j]).r && out@[4 * j + 1]
                    == g.cells@[j].g && out@[4 * j + 2] == g.cells@[j].b && out@[4 * j + 3]
                    == g.cells@[j].a,
        decreases count - i,
    {
        let p = g.cells[i];
        out.push(p.r);
        out.push(p.g);
        out.push(p.b);
        out.push(p.a);
        i = i + 1;
    }
    out
}

/// Builds the grid a decoded document describes: every cell starts
/// transparent; each record with nonzero alpha and in-bounds coordinates
/// is written at its position, later records over earlier ones;
/// out-of-bounds and zero-alpha records are dropped without error, and the
/// grid keeps the declared size whatever the records hold.
pub fn materialize(width: u32, height: u32, records: &Vec<PixelRecord>) -> (g: Grid)
    requires
        (width as int) * (height as int) <= usize::MAX,
    ensures
        g.wf(),
        g.width == width,
        g.height == height,
        g.cells@ == place_all(blank(width as int, height as int), width as int, height as int,
            records@),
{
    let mut g = Grid::new(width, height);
    let n = records.len();
    let mut i: usize = 0;
    while i < n
        invariant
            i <= n,
            n == records@.len(),
            g.wf(),
            g.width == width,
            g.height == height,
            (width as int) * (height as int) <= usize::MAX,
            g.cells@ == place_all(blank(width as int, height as int), width as int,
                height as int, records@.take(i as int)),
        decreases n - i,
    {
        let rec = records[i];
        proof {
            assert(records@.take(i + 1).drop_last() =~= records@.take(i as int));
            assert(records@.take(i + 1).last() == records@[i as int]);
        }
        if rec.a != 0 && rec.x < width && rec.y < height {
            g.set(rec.x, rec.y, Pixel { r: rec.r, g: rec.g, b: rec.b, a: rec.a });
        }
        i = i + 1;
    }
    proof {
        assert(records@.take(n as int) =~= records@);
    }
    g
}

/// Builds the grid of a decoded document, at its declared size; `None`
/// when that size exceeds what a cell buffer can hold.
pub fn document_to_grid(doc: &crate::records::SigmaDoc) -> (r: Option<Grid>)
    ensures
        match r {
            Some(g) => {
                &&& (doc.width as int) * (doc.height as int) <= usize::MAX
                &&& g.wf()
                &&& g.width == doc.width
                &&& g.height == doc.height
                &&& g.cells@ == place_all(
                    blank(doc.width as int, doc.height as int),
                    doc.width as int,
                    doc.height as int,
                    doc.pixels@,
                )
            },
            None => (doc.width as int) * (doc.height as int) > usize::MAX,
        },
{
    proof {
        assert((doc.width as int) * (doc.height as int) <= 0xffff_ffff_0000_0001int)
            by (nonlinear_arith)
            requires
                0 <= doc.width as int <= 0xffff_ffffint,
                0 <= doc.height as int <= 0xffff_ffffint,
        ;
    }
    let need: u128 = (doc.width as u128) * (doc.height as u128);
    if need > (usize::MAX as u128) {
        return None;
    }
    Some(materialize(doc.width, doc.height, &doc.pixels))
}

} // verus!
