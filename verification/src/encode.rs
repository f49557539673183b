//! The sigma encoder: a dense grid rendered as the two-line sigma text,
//! fully transparent pixels skipped.

use vstd::prelude::*;
use crate::ascii::{dec_rep, push_decimal};
use crate::grid::Grid;
use crate::records::PixelRecord;
use crate::scan::sep_rep;

verus! {

/// The record of cell `i` of a row-major grid of width `w`.
pub open spec fn record_at(cells: Seq<crate::grid::Pixel>, w: int, i: int) -> PixelRecord {
    PixelRecord {
        r: cells[i].r,
        g: cells[i].g,
        b: cells[i].b,
        a: cells[i].a,
        x: (i % w) as u32,
        y: (i / w) as u32,
    }
}

/// The records of the first `k` cells, row-major, top row first, fully
/// transparent cells skipped.
pub open spec fn sparse_prefix(cells: Seq<crate::grid::Pixel>, w: int, k: int) -> Seq<
    PixelRecord,
>
    decreases k,
{
    if k <= 0 {
        Seq::empty()
    } else {
        sparse_prefix(cells, w, k - 1) + (if cells[k - 1].a != 0 {
            seq![record_at(cells, w, k - 1)]
        } else {
            Seq::<PixelRecord>::empty()
        })
    }
}

/// The records the encoder keeps for a grid.
pub open spec fn sparse_of(g: Grid) -> Seq<PixelRecord> {
    sparse_prefix(g.cells@, g.width as int, (g.width as int) * (g.height as int))
}

/// The encoded tuple of one record: six decimal values, comma-separated.
pub open spec fn tuple_rep(rec: PixelRecord) -> Seq<u8> {
    dec_rep(rec.r as nat) + seq![0x2c] + dec_rep(rec.g as nat) + seq![0x2c] + dec_rep(
        rec.b as nat,
    ) + seq![0x2c] + dec_rep(rec.a as nat) + seq![0x2c] + dec_rep(rec.x as nat) + seq![0x2c]
        + dec_rep(rec.y as nat)
}

/// The tuples joined with `],[`.
pub open spec fn groups_rep(recs: Seq<PixelRecord>) -> Seq<u8>
    decreases recs.len(),
{
    if recs.len() == 0 {
        Seq::empty()
    } else if recs.len() == 1 {
        tuple_rep(recs[0])
    } else {
        tuple_rep(recs[0]) + sep_rep() + groups_rep(recs.drop_first())
    }
}

/// The pixel-data line: the joined tuples in one pair of brackets, or
/// nothing at all when no record is kept.
pub open spec fn pixel_line_rep(recs: Seq<PixelRecord>) -> Seq<u8> {
    if recs.len() == 0 {
        Seq::empty()
    } else {
        seq![0x5b] + groups_rep(recs) + seq![0x5d]
    }
}

/// The whole body: height, a space, width, a newline, then the pixel-data
/// line. Height stands before width.
pub open spec fn encode_rep(height: u32, width: u32, recs: Seq<PixelRecord>) -> Seq<u8> {
    dec_rep(height as nat) + seq![0x20] + dec_rep(width as nat) + seq![0x0a] + pixel_line_rep(
        recs,
    )
}

/// Appending a record extends the joined tuples by one separator and one
/// tuple.
pub proof fn lemma_groups_push(recs: Seq<PixelRecord>, rec: PixelRecord)
    ensures
        groups_rep(recs.push(rec)) == if recs.len() == 0 {
            tuple_rep(rec)
        } else {
            groups_rep(recs) + sep_rep() + tuple_rep(rec)
        },
    decreases recs.len(),
{
    if recs.len() == 0 {
        assert(recs.push(rec)[0] == rec);
        assert(recs.push(rec).len() == 1);
    } else if recs.len() == 1 {
        assert(recs.push(rec).drop_first() =~= seq![rec]);
        assert(groups_rep(seq![rec]) == tuple_rep(seq![rec][0]));
    } else {
        lemma_groups_push(recs.drop_first(), rec);
        assert(recs.push(rec).drop_first() =~= recs.drop_first().push(rec));
        assert(recs.push(rec)[0] == recs[0]);
        assert(tuple_rep(recs[0]) + sep_rep() + (groups_rep(recs.drop_first()) + sep_rep()
            + tuple_rep(rec)) =~= (tuple_rep(recs[0]) + sep_rep() + groups_rep(
            recs.drop_first(),
        )) + sep_rep() + tuple_rep(rec));
    }
}

/// Appends the encoded tuple of one record.
fn push_tuple(out: &mut Vec<u8>, rec: &PixelRecord)
    ensures
        final(out)@ == old(out)@ + tuple_rep(*rec),
{
    push_decimal(out, rec.r as u32);
    out.push(0x2c);
    push_decimal(out, rec.g as u32);
    out.push(0x2c);
    push_decimal(out, rec.b as u32);
    out.push(0x2c);
    push_decimal(out, rec.a as u32);
    out.push(0x2c);
    push_decimal(out, rec.x);
    out.push(0x2c);
    push_decimal(out, rec.y);
    proof {
        assert(out@ =~= old(out)@ + tuple_rep(*rec));
    }
}

/// The sparse records of a grid, in row-major encounter order.
pub fn sparse_records(g: &Grid) -> (recs: Vec<PixelRecord>)
    requires
        g.wf(),
    ensures
        recs@ == sparse_of(*g),
{
    let mut recs: Vec<PixelRecord> = Vec::new();
    let mut y: u32 = 0;
    let mut k: usize = 0;
    let ghost w = g.width as int;
    let ghost h = g.height as int;
    while y < g.height
        invariant
            y <= g.height,
            g.wf(),
            w == g.width as int,
            h == g.height as int,
            k == (y as int) * w,
            k <= w * h,
            recs@ == sparse_prefix(g.cells@, w, k as int),
        decreases g.height - y,
    {
        let mut x: u32 = 0;
        while x < g.width
            invariant
                x <= g.width,
                y < g.height,
                g.wf(),
                w == g.width as int,
                h == g.height as int,
                k == (y as int) * w + (x as int),
                recs@ == sparse_prefix(g.cells@, w, k as int),
            decreases g.width - x,
        {
            proof {
                vstd::arithmetic::mul::lemma_mul_inequality((y as int) + 1, h, w);
                assert(k < w * h) by (nonlinear_arith)
                    requires
                        k == (y as int) * w + (x as int),
                        x < g.width,
                        w == g.width as int,
                        ((y as int) + 1) * w <= h * w,
                ;
                vstd::arithmetic::div_mod::lemma_fundamental_div_mod_converse(
                    k as int,
                    w,
                    y as int,
                    x as int,
                );
            }
            let p = g.get(x, y);
            if p.a != 0 {
                recs.push(
                    PixelRecord { r: p.r, g: p.g, b: p.b, a: p.a, x, y },
                );
            }
            proof {
                assert(sparse_prefix(g.cells@, w, k + 1) == sparse_prefix(g.cells@, w, k as int)
                    + (if g.cells@[k as int].a != 0 {
                    seq![record_at(g.cells@, w, k as int)]
                } else {
                    Seq::<PixelRecord>::empty()
                }));
                if g.cells@[k as int].a != 0 {
                    assert(record_at(g.cells@, w, k as int) == PixelRecord {
                        r: g.cells@[k as int].r,
                        g: g.cells@[k as int].g,
                        b: g.cells@[k as int].b,
                        a: g.cells@[k as int].a,
                        x,
                        y,
                    });
                }
                assert(recs@ + Seq::<PixelRecord>::empty() =~= recs@);
            }
            k = k + 1;
            x = x + 1;
        }
        proof {
            assert((y as int) * w + w == ((y as int) + 1) * w) by (nonlinear_arith);
            vstd::arithmetic::mul::lemma_mul_inequality((y as int) + 1, h, w);
            assert(x == g.width);
            assert(k == (y as int) * w + w);
            assert(k == ((y as int) + 1) * w);
            assert(((y as int) + 1) * w <= h * w);
            vstd::arithmetic::mul::lemma_mul_is_commutative(w, h);
            assert(k <= w * h);
        }
        y = y + 1;
    }
    proof {
        assert(k == h * w) by (nonlinear_arith)
            requires
                k == (y as int) * w,
                y as int == h,
        ;
    }
    recs
}

/// Encodes a grid as the sigma text: the dimensions line holds height
/// before width; fully transparent pixels are left out of the pixel-data
/// line.
pub fn encode_sigma_text(g: &Grid) -> (out: Vec<u8>)
    requires
        g.wf(),
    ensures
        out@ == encode_rep(g.height, g.width, sparse_of(*g)),
{
    let recs = sparse_records(g);
    let mut out: Vec<u8> = Vec::new();
    push_decimal(&mut out, g.height);
    out.push(0x20);
    push_decimal(&mut out, g.width);
    out.push(0x0a);
    let ghost header = dec_rep(g.height as nat) + seq![0x20] + dec_rep(g.width as nat) + seq![
        0x0a,
    ];
    proof {
        assert(out@ =~= header);
    }
    let n = recs.len();
    let mut i: usize = 0;
    while i < n
        invariant
            i <= n,
            n == recs@.len(),
            out@ == header + (if i == 0 {
                Seq::<u8>::empty()
            } else {
                seq![0x5b] + groups_rep(recs@.take(i as int))
            }),
        decreases n - i,
    {
        if i == 0 {
            out.push(0x5b);
        } else {
            out.push(0x5d);
            out.push(0x2c);
            out.push(0x5b);
        }
        push_tuple(&mut out, &recs[i]);
        proof {
            lemma_groups_push(recs@.take(i as int), recs@[i as int]);
            assert(recs@.take(i as int).push(recs@[i as int]) =~= recs@.take(i + 1));
            if i == 0 {
                assert(out@ =~= header + (seq![0x5b] + groups_rep(recs@.take(i + 1))));
            } else {
                assert(out@ =~= header + (seq![0x5b] + groups_rep(recs@.take(i + 1))));
            }
        }
        i = i + 1;
    }
    if n > 0 {
        out.push(0x5d);
    }
    proof {
        assert(recs@.take(n as int) =~= recs@);
        if n == 0 {
            assert(out@ =~= encode_rep(g.height, g.width, sparse_of(*g)));
        } else {
            assert(out@ =~= encode_rep(g.height, g.width, sparse_of(*g)));
        }
    }
    out
}

} // verus!
