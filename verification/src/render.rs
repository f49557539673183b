//! The viewer's bitmap: its canvas extent comes from the largest
//! coordinates among the records, not from the declared dimensions — the
//! two paths stay distinct on purpose.

use vstd::prelude::*;
use crate::records::PixelRecord;

verus! {

/// The largest x among the records, zero when there is none.
pub open spec fn max_x_of(recs: Seq<PixelRecord>) -> int
    decreases recs.len(),
{
    if recs.len() == 0 {
        0
    } else {
        let m = max_x_of(recs.drop_last());
        if recs.last().x as int > m {
            recs.last().x as int
        } else {
            m
        }
    }
}

/// The largest y among the records, zero when there is none.
pub open spec fn max_y_of(recs: Seq<PixelRecord>) -> int
    decreases recs.len(),
{
    if recs.len() == 0 {
        0
    } else {
        let m = max_y_of(recs.drop_last());
        if recs.last().y as int > m {
            recs.last().y as int
        } else {
            m
        }
    }
}

/// One record written into the flat RGBA bytes of a canvas of width `w`,
/// four bytes per cell; a record whose cell falls outside the buffer is
/// ignored.
pub open spec fn write_record(buf: Seq<u8>, w: int, rec: PixelRecord) -> Seq<u8> {
    let idx = ((rec.y as int) * w + (rec.x as int)) * 4;
    if idx < buf.len() {
        buf.update(idx, rec.r).update(idx + 1, rec.g).update(idx + 2, rec.b).update(
            idx + 3,
            rec.a,
        )
    } else {
        buf
    }
}

/// All records written in order, later records over earlier ones.
pub open spec fn write_all(buf: Seq<u8>, w: int, recs: Seq<PixelRecord>) -> Seq<u8>
    decreases recs.len(),
{
    if recs.len() == 0 {
        buf
    } else {
        write_record(write_all(buf, w, recs.drop_last()), w, recs.last())
    }
}

/// A rendered canvas: flat RGBA bytes, row-major.
pub struct RenderedImage {
    pub width: u32,
    pub height: u32,
    pub rgba: Vec<u8>,
}

/// Renders records to a canvas just wide and tall enough for them. An
/// empty record list renders nothing.
pub fn render_records(records: &Vec<PixelRecord>) -> (r: Option<RenderedImage>)
    requires
        max_x_of(records@) < u32::MAX,
        max_y_of(records@) < u32::MAX,
        (max_x_of(records@) + 1) * (max_y_of(records@) + 1) * 4 <= usize::MAX,
    ensures
        match r {
            None => records@.len() == 0,
            Some(img) => {
                &&& records@.len() > 0
                &&& img.width == max_x_of(records@) + 1
                &&& img.height == max_y_of(records@) + 1
                &&& img.rgba@ == write_all(
                    Seq::new(((img.width as int) * (img.height as int) * 4) as nat, |i: int| 0u8),
                    img.width as int,
                    records@,
                )
            },
        },
{
    let n = records.len();
    if n == 0 {
        return None;
    }
    let mut mx: u32 = 0;
    let mut my: u32 = 0;
    let mut i: usize = 0;
    while i < n
        invariant
            i <= n,
            n == records@.len(),
            mx as int == max_x_of(records@.take(i as int)),
            my as int == max_y_of(records@.take(i as int)),
            max_x_of(records@.take(i as int)) <= max_x_of(records@),
            max_y_of(records@.take(i as int)) <= max_y_of(records@),
            max_x_of(records@) < u32::MAX,
            max_y_of(records@) < u32::MAX,
        decreases n - i,
    {
        let rec = records[i];
        proof {
            assert(records@.take(i + 1).drop_last() =~= records@.take(i as int));
            assert(records@.take(i + 1).last() == records@[i as int]);
            lemma_max_take_le(records@, i + 1);
        }
        if rec.x > mx {
            mx = rec.x;
        }
        if rec.y > my {
            my = rec.y;
        }
        i = i + 1;
    }
    proof {
        assert(records@.take(n as int) =~= records@);
    }
    let width: u32 = mx + 1;
    let height: u32 = my + 1;
    let ghost w = width as int;
    let ghost h = height as int;
    let m: usize = (width as usize) * (height as usize) * 4;
    let mut buf: Vec<u8> = Vec::new();
    let mut j: usize = 0;
    while j < m
        invariant
            j <= m,
            buf@.len() == j,
            forall|t: int| 0 <= t < j ==> buf@[t] == 0u8,
        decreases m - j,
    {
        buf.push(0);
        j = j + 1;
    }
    let ghost zero = Seq::new((w * h * 4) as nat, |t: int| 0u8);
    proof {
        assert(buf@ =~= zero);
    }
    let mut i: usize = 0;
    while i < n
        invariant
            i <= n,
            n == records@.len(),
            w == width as int,
            h == height as int,
            w * h * 4 <= usize::MAX,
            m as int == w * h * 4,
            0 < w,
            0 < h,
            buf@.len() == w * h * 4,
            zero == Seq::new((w * h * 4) as nat, |t: int| 0u8),
            max_x_of(records@) == w - 1,
            max_y_of(records@) == h - 1,
            buf@ == write_all(zero, w, records@.take(i as int)),
        decreases n - i,
    {
        let rec = records[i];
        proof {
            assert(records@.take(i + 1).drop_last() =~= records@.take(i as int));
            assert(records@.take(i + 1).last() == records@[i as int]);
            lemma_max_mem(records@, i as int);
            assert(rec.x as int <= w - 1);
            assert(rec.y as int <= h - 1);
            assert(((rec.y as int) * w + (rec.x as int)) * 4 + 3 < w * h * 4) by (nonlinear_arith)
                requires
                    rec.x as int <= w - 1,
                    rec.y as int <= h - 1,
                    0 < w,
                    0 < h,
            ;
        }
        let idx = (rec.y as usize) * (width as usize) + (rec.x as usize);
        let idx4 = idx * 4;
        if idx4 < m {
            buf.set(idx4, rec.r);
            buf.set(idx4 + 1, rec.g);
            buf.set(idx4 + 2, rec.b);
            buf.set(idx4 + 3, rec.a);
        }
        proof {
            assert(buf@ =~= write_record(
                write_all(zero, w, records@.take(i as int)),
                w,
                records@[i as int],
            ));
            assert(buf@ =~= write_all(zero, w, records@.take(i + 1)));
        }
        i = i + 1;
    }
    proof {
        assert(records@.take(n as int) =~= records@);
    }
    Some(RenderedImage { width, height, rgba: buf })
}

/// The running maximum over a prefix never exceeds the maximum over the
/// whole.
proof fn lemma_max_take_le(recs: Seq<PixelRecord>, i: int)
    requires
        0 <= i <= recs.len(),
    ensures
        max_x_of(recs.take(i)) <= max_x_of(recs),
        max_y_of(recs.take(i)) <= max_y_of(recs),
    decreases recs.len() - i,
{
    if i == recs.len() {
        assert(recs.take(i) =~= recs);
    } else {
        lemma_max_take_le(recs, i + 1);
        assert(recs.take(i + 1).drop_last() =~= recs.take(i));
        assert(max_x_of(recs.take(i)) <= max_x_of(recs.take(i + 1)));
        assert(max_y_of(recs.take(i)) <= max_y_of(recs.take(i + 1)));
    }
}

/// Each record's coordinates stay within the maxima.
proof fn lemma_max_mem(recs: Seq<PixelRecord>, i: int)
    requires
        0 <= i < recs.len(),
    ensures
        recs[i].x as int <= max_x_of(recs),
        recs[i].y as int <= max_y_of(recs),
    decreases recs.len(),
{
    if i == recs.len() - 1 {
        assert(recs.last() == recs[i]);
    } else {
        lemma_max_mem(recs.drop_last(), i);
        assert(recs.drop_last()[i] == recs[i]);
    }
}

} // verus!
