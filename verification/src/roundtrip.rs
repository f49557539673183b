//! Round trip of the codec: decoding an encoded grid returns its
//! dimensions and exactly its non-transparent pixels, and rebuilding a
//! grid from them reproduces the image up to the color of fully
//! transparent pixels.

use vstd::prelude::*;
use crate::ascii::{is_space, is_ascii_digit, all_digits, dec_rep, parse_u8_spec, parse_u32_spec,
    strip_plus, lemma_dec_rep, lemma_parse_dec_rep};
use crate::decode::{u8s_from, u32s_from, opt_u8_seq, opt_rec_seq, group_values, group_record,
    records_from, pixel_records, numeric_dims, lines_of, decode_text_spec, lemma_u8s_advance,
    lemma_u32s_advance, lemma_records_advance, lemma_lines_advance};
use crate::encode::{tuple_rep, groups_rep, pixel_line_rep, encode_rep, sparse_prefix, sparse_of,
    record_at};
use crate::grid::{Pixel, Grid, transparent, blank, place, place_all};
use crate::records::{PixelRecord, SigmaDocV, SigmaError};
use crate::scan::{sep_rep, match_at, is_bracket, trim_ws_start, trim_ws_end, trim_ws_spec,
    trim_br_start, trim_br_end, trim_br_spec, strip_cr};

verus! {

/// A byte of an encoded tuple: a digit or a comma.
pub open spec fn tuple_byte(b: u8) -> bool {
    is_ascii_digit(b) || b == 0x2c
}

pub open spec fn all_tuple_bytes(s: Seq<u8>) -> bool {
    forall|i: int| 0 <= i < s.len() ==> tuple_byte(s[i])
}

proof fn lemma_app_tuple_bytes(s1: Seq<u8>, s2: Seq<u8>)
    requires
        all_tuple_bytes(s1),
        all_tuple_bytes(s2),
    ensures
        all_tuple_bytes(s1 + s2),
{
    assert forall|i: int| 0 <= i < (s1 + s2).len() implies tuple_byte((s1 + s2)[i]) by {
        if i < s1.len() {
            assert((s1 + s2)[i] == s1[i]);
        } else {
            assert((s1 + s2)[i] == s2[i - s1.len()]);
        }
    }
}

proof fn lemma_digits_tuple_bytes(s: Seq<u8>)
    requires
        all_digits(s),
    ensures
        all_tuple_bytes(s),
{
}

/// Every byte of an encoded tuple is a digit or a comma, and it opens and
/// closes with a digit.
proof fn lemma_tuple_rep_bytes(rec: PixelRecord)
    ensures
        all_tuple_bytes(tuple_rep(rec)),
        tuple_rep(rec).len() > 0,
        is_ascii_digit(tuple_rep(rec)[0]),
        is_ascii_digit(tuple_rep(rec).last()),
{
    let a1 = dec_rep(rec.r as nat);
    let a2 = dec_rep(rec.g as nat);
    let a3 = dec_rep(rec.b as nat);
    let a4 = dec_rep(rec.a as nat);
    let a5 = dec_rep(rec.x as nat);
    let a6 = dec_rep(rec.y as nat);
    let c = seq![0x2cu8];
    lemma_dec_rep(rec.r as nat);
    lemma_dec_rep(rec.g as nat);
    lemma_dec_rep(rec.b as nat);
    lemma_dec_rep(rec.a as nat);
    lemma_dec_rep(rec.x as nat);
    lemma_dec_rep(rec.y as nat);
    lemma_digits_tuple_bytes(a1);
    lemma_digits_tuple_bytes(a2);
    lemma_digits_tuple_bytes(a3);
    lemma_digits_tuple_bytes(a4);
    lemma_digits_tuple_bytes(a5);
    lemma_digits_tuple_bytes(a6);
    assert(all_tuple_bytes(c));
    lemma_app_tuple_bytes(a1, c);
    lemma_app_tuple_bytes(a1 + c, a2);
    lemma_app_tuple_bytes(a1 + c + a2, c);
    lemma_app_tuple_bytes(a1 + c + a2 + c, a3);
    lemma_app_tuple_bytes(a1 + c + a2 + c + a3, c);
    lemma_app_tuple_bytes(a1 + c + a2 + c + a3 + c, a4);
    lemma_app_tuple_bytes(a1 + c + a2 + c + a3 + c + a4, c);
    lemma_app_tuple_bytes(a1 + c + a2 + c + a3 + c + a4 + c, a5);
    lemma_app_tuple_bytes(a1 + c + a2 + c + a3 + c + a4 + c + a5, c);
    lemma_app_tuple_bytes(a1 + c + a2 + c + a3 + c + a4 + c + a5 + c, a6);
    assert(tuple_rep(rec) == a1 + c + a2 + c + a3 + c + a4 + c + a5 + c + a6);
    assert(tuple_rep(rec)[0] == a1[0]);
    assert(tuple_rep(rec).last() == a6.last());
    assert(is_ascii_digit(a6[a6.len() - 1]));
}

/// Trimming does not touch a token that opens and closes with a digit.
proof fn lemma_trims_noop_digit(s: Seq<u8>)
    requires
        s.len() > 0,
        is_ascii_digit(s[0]),
        is_ascii_digit(s[s.len() - 1]),
    ensures
        trim_ws_spec(s) == s,
        trim_br_spec(s) == s,
{
    assert(!is_space(s[0]));
    assert(!is_space(s.last()));
    assert(!is_bracket(s[0]));
    assert(!is_bracket(s.last()));
}

/// One comma-closed decimal token at the head of a group contributes its
/// value.
proof fn lemma_u8s_value_sep(v: u8, rest: Seq<u8>)
    ensures
        u8s_from(dec_rep(v as nat) + seq![0x2cu8] + rest, Seq::empty()) == seq![v] + u8s_from(
            rest,
            Seq::empty(),
        ),
{
    let d = dec_rep(v as nat);
    lemma_dec_rep(v as nat);
    let s = d + seq![0x2cu8] + rest;
    assert forall|j: int| 0 <= j < d.len() implies s[j] != 0x2c by {
        assert(s[j] == d[j]);
        assert(is_ascii_digit(d[j]));
    }
    lemma_u8s_advance(s, Seq::empty(), d.len() as int);
    assert(Seq::empty() + s.take(d.len() as int) =~= d);
    assert(s.skip(d.len() as int) =~= seq![0x2cu8] + rest);
    let u = seq![0x2cu8] + rest;
    assert(u[0] == 0x2c);
    assert(u.drop_first() =~= rest);
    assert(is_ascii_digit(d[d.len() - 1]));
    lemma_trims_noop_digit(d);
    assert(strip_plus(d) == d);
    assert(parse_u8_spec(d) == Some(v));
    assert(opt_u8_seq(Some(v)) =~= seq![v]);
}

/// A decimal token closing a group contributes its value.
proof fn lemma_u8s_value_end(v: u8)
    ensures
        u8s_from(dec_rep(v as nat), Seq::empty()) == seq![v],
{
    let d = dec_rep(v as nat);
    lemma_dec_rep(v as nat);
    assert forall|j: int| 0 <= j < d.len() implies d[j] != 0x2c by {
        assert(is_ascii_digit(d[j]));
    }
    lemma_u8s_advance(d, Seq::empty(), d.len() as int);
    assert(Seq::empty() + d.take(d.len() as int) =~= d);
    assert(d.skip(d.len() as int) =~= Seq::<u8>::empty());
    assert(is_ascii_digit(d[d.len() - 1]));
    lemma_trims_noop_digit(d);
    assert(strip_plus(d) == d);
    assert(parse_u8_spec(d) == Some(v));
    assert(u8s_from(d, Seq::empty()) =~= seq![v]);
}

/// The six values of an encoded tuple read back exactly, provided the
/// coordinates fit in one byte.
#[verifier::rlimit(60)]
proof fn lemma_tuple_values(rec: PixelRecord)
    requires
        rec.x <= 255,
        rec.y <= 255,
    ensures
        u8s_from(tuple_rep(rec), Seq::empty()) == seq![
            rec.r,
            rec.g,
            rec.b,
            rec.a,
            rec.x as u8,
            rec.y as u8,
        ],
{
    let a1 = dec_rep(rec.r as nat);
    let a2 = dec_rep(rec.g as nat);
    let a3 = dec_rep(rec.b as nat);
    let a4 = dec_rep(rec.a as nat);
    let a5 = dec_rep(rec.x as nat);
    let a6 = dec_rep(rec.y as nat);
    let c = seq![0x2cu8];
    let r2 = a2 + c + a3 + c + a4 + c + a5 + c + a6;
    let r3 = a3 + c + a4 + c + a5 + c + a6;
    let r4 = a4 + c + a5 + c + a6;
    let r5 = a5 + c + a6;
    assert(tuple_rep(rec) =~= a1 + c + r2);
    assert(r2 =~= a2 + c + r3);
    assert(r3 =~= a3 + c + r4);
    assert(r4 =~= a4 + c + r5);
    assert(r5 =~= a5 + c + a6);
    assert((rec.x as u8) as nat == rec.x as nat);
    assert((rec.y as u8) as nat == rec.y as nat);
    lemma_u8s_value_sep(rec.r, r2);
    lemma_u8s_value_sep(rec.g, r3);
    lemma_u8s_value_sep(rec.b, r4);
    lemma_u8s_value_sep(rec.a, r5);
    lemma_u8s_value_sep(rec.x as u8, a6);
    lemma_u8s_value_end(rec.y as u8);
    assert(u8s_from(tuple_rep(rec), Seq::empty()) =~= seq![
        rec.r,
        rec.g,
        rec.b,
        rec.a,
        rec.x as u8,
        rec.y as u8,
    ]);
}

/// One group of the encoded pixel line reads back as its record, whatever
/// bracket ends the splitting left on it.
proof fn lemma_group_piece(rec: PixelRecord, lead: Seq<u8>, trail: Seq<u8>)
    requires
        rec.x <= 255,
        rec.y <= 255,
        lead == Seq::<u8>::empty() || lead == seq![0x5bu8],
        trail == Seq::<u8>::empty() || trail == seq![0x5du8],
    ensures
        group_record(lead + tuple_rep(rec) + trail) == Some(rec),
{
    let t = tuple_rep(rec);
    lemma_tuple_rep_bytes(rec);
    let s = lead + t + trail;
    let tt = t + trail;
    assert(lead + t + trail =~= lead + (t + trail));
    if lead == seq![0x5bu8] {
        assert(s[0] == 0x5b);
        assert(is_bracket(s[0]));
        assert(s.drop_first() =~= tt);
        assert(trim_br_start(s) == trim_br_start(tt));
    } else {
        assert(s =~= tt);
    }
    assert(tt[0] == t[0]);
    assert(!is_bracket(tt[0]));
    assert(trim_br_start(tt) == tt);
    if trail == seq![0x5du8] {
        assert(tt.last() == 0x5d);
        assert(is_bracket(tt.last()));
        assert(tt.drop_last() =~= t);
        assert(trim_br_end(tt) == trim_br_end(t));
    } else {
        assert(tt =~= t);
    }
    assert(!is_bracket(t.last()));
    assert(trim_br_end(t) == t);
    assert(trim_br_spec(s) == t);
    assert(is_ascii_digit(t[t.len() - 1]));
    lemma_trims_noop_digit(t);
    assert(group_values(s) == u8s_from(t, Seq::empty()));
    lemma_tuple_values(rec);
    let vs = group_values(s);
    assert(vs.len() == 6);
    assert(vs[0] == rec.r && vs[1] == rec.g && vs[2] == rec.b && vs[3] == rec.a);
    assert(vs[4] as u32 == rec.x && vs[5] as u32 == rec.y);
}

/// Splitting the joined groups at each separator recovers one record per
/// group, whatever bracket the accumulated prefix carries.
proof fn lemma_records_of_groups(recs: Seq<PixelRecord>, cur: Seq<u8>)
    requires
        recs.len() >= 1,
        forall|i: int| 0 <= i < recs.len() ==> (#[trigger] recs[i]).x <= 255 && recs[i].y <= 255,
        cur == Seq::<u8>::empty() || cur == seq![0x5bu8],
    ensures
        records_from(groups_rep(recs) + seq![0x5du8], cur) == recs,
    decreases recs.len(),
{
    let t1 = tuple_rep(recs[0]);
    lemma_tuple_rep_bytes(recs[0]);
    if recs.len() == 1 {
        let s = t1 + seq![0x5du8];
        assert(groups_rep(recs) == t1);
        assert forall|j: int| 0 <= j < s.len() implies !match_at(s, sep_rep(), j) by {
            if match_at(s, sep_rep(), j) {
                assert(s.subrange(j, j + 3)[0] == s[j]);
                assert(s[j] == 0x5d);
                if j < t1.len() {
                    assert(s[j] == t1[j]);
                    assert(tuple_byte(t1[j]));
                }
            }
        }
        lemma_records_advance(s, cur, s.len() as int);
        assert(cur + s.take(s.len() as int) =~= cur + t1 + seq![0x5du8]);
        assert(s.skip(s.len() as int) =~= Seq::<u8>::empty());
        lemma_group_piece(recs[0], cur, seq![0x5du8]);
        assert(records_from(s, cur) =~= recs);
    } else {
        let g2 = groups_rep(recs.drop_first());
        assert(groups_rep(recs) == t1 + sep_rep() + g2);
        let s = groups_rep(recs) + seq![0x5du8];
        assert forall|j: int| 0 <= j < t1.len() implies !match_at(s, sep_rep(), j) by {
            if match_at(s, sep_rep(), j) {
                assert(s.subrange(j, j + 3)[0] == s[j]);
                assert(s[j] == t1[j]);
                assert(tuple_byte(t1[j]));
            }
        }
        lemma_records_advance(s, cur, t1.len() as int);
        assert(cur + s.take(t1.len() as int) =~= cur + t1);
        let u = s.skip(t1.len() as int);
        assert(u =~= sep_rep() + (g2 + seq![0x5du8]));
        assert(u.subrange(0, 3) =~= sep_rep());
        assert(u.len() >= 3);
        assert(u.skip(3) =~= g2 + seq![0x5du8]);
        lemma_group_piece(recs[0], cur, Seq::<u8>::empty());
        assert(cur + t1 =~= cur + t1 + Seq::<u8>::empty());
        assert forall|i: int| 0 <= i < recs.drop_first().len() implies (#[trigger] recs.drop_first()[i]).x
            <= 255 && recs.drop_first()[i].y <= 255 by {
            assert(recs.drop_first()[i] == recs[i + 1]);
        }
        lemma_records_of_groups(recs.drop_first(), Seq::<u8>::empty());
        assert(records_from(s, cur) =~= seq![recs[0]] + recs.drop_first());
        assert(seq![recs[0]] + recs.drop_first() =~= recs);
    }
}

/// An empty pixel-data line yields no record.
proof fn lemma_records_of_empty()
    ensures
        pixel_records(Seq::<u8>::empty()) == Seq::<PixelRecord>::empty(),
{
    let e = Seq::<u8>::empty();
    assert(trim_br_start(e) == e);
    assert(trim_br_end(e) == e);
    assert(trim_ws_start(e) == e);
    assert(trim_ws_end(e) == e);
    assert(strip_plus(e) == e);
    assert(parse_u8_spec(trim_ws_spec(e)) is None);
    assert(group_values(e) =~= Seq::<u8>::empty());
    assert(group_record(e) is None);
    assert(pixel_records(e) =~= Seq::<PixelRecord>::empty());
}

/// Splitting the encoded pixel-data line recovers exactly the encoded
/// records.
proof fn lemma_records_of_line(recs: Seq<PixelRecord>)
    requires
        forall|i: int| 0 <= i < recs.len() ==> (#[trigger] recs[i]).x <= 255 && recs[i].y <= 255,
    ensures
        pixel_records(pixel_line_rep(recs)) == recs,
{
    if recs.len() == 0 {
        lemma_records_of_empty();
        assert(recs =~= Seq::<PixelRecord>::empty());
    } else {
        let body = groups_rep(recs) + seq![0x5du8];
        let line = pixel_line_rep(recs);
        assert(line == seq![0x5bu8] + groups_rep(recs) + seq![0x5du8]);
        assert(line =~= seq![0x5bu8] + body);
        assert(line[0] == 0x5b);
        assert(line.len() > 0);
        if line.len() >= 3 && line.subrange(0, 3) == sep_rep() {
            assert(line.subrange(0, 3)[0] == line[0]);
        }
        assert(line.drop_first() =~= body);
        assert(Seq::<u8>::empty().push(line[0]) =~= seq![0x5bu8]);
        assert(pixel_records(line) == records_from(body, seq![0x5bu8]));
        lemma_records_of_groups(recs, seq![0x5bu8]);
    }
}

/// The encoded dimensions line reads back as its two numbers.
proof fn lemma_dims_tokens(height: u32, width: u32)
    ensures
        numeric_dims(dec_rep(height as nat) + seq![0x20u8] + dec_rep(width as nat)) == seq![
            height,
            width,
        ],
{
    let dh = dec_rep(height as nat);
    let dw = dec_rep(width as nat);
    lemma_dec_rep(height as nat);
    lemma_dec_rep(width as nat);
    let s = dh + seq![0x20u8] + dw;
    assert forall|j: int| 0 <= j < dh.len() implies !is_space(s[j]) by {
        assert(s[j] == dh[j]);
        assert(is_ascii_digit(dh[j]));
    }
    lemma_u32s_advance(s, Seq::empty(), dh.len() as int);
    assert(Seq::empty() + s.take(dh.len() as int) =~= dh);
    let u = s.skip(dh.len() as int);
    assert(u =~= seq![0x20u8] + dw);
    assert(is_space(u[0]));
    assert(u.drop_first() =~= dw);
    lemma_parse_dec_rep(height as nat);
    assert(parse_u32_spec(dh) == Some(height));
    assert forall|j: int| 0 <= j < dw.len() implies !is_space(dw[j]) by {
        assert(is_ascii_digit(dw[j]));
    }
    lemma_u32s_advance(dw, Seq::empty(), dw.len() as int);
    assert(Seq::empty() + dw.take(dw.len() as int) =~= dw);
    assert(dw.skip(dw.len() as int) =~= Seq::<u8>::empty());
    lemma_parse_dec_rep(width as nat);
    assert(parse_u32_spec(dw) == Some(width));
    assert(numeric_dims(s) =~= seq![height, width]);
}

/// A byte of the encoded pixel-data line.
pub open spec fn line_byte(b: u8) -> bool {
    tuple_byte(b) || b == 0x5b || b == 0x5d
}

pub open spec fn all_line_bytes(s: Seq<u8>) -> bool {
    forall|i: int| 0 <= i < s.len() ==> line_byte(s[i])
}

proof fn lemma_app_line_bytes(s1: Seq<u8>, s2: Seq<u8>)
    requires
        all_line_bytes(s1),
        all_line_bytes(s2),
    ensures
        all_line_bytes(s1 + s2),
{
    assert forall|i: int| 0 <= i < (s1 + s2).len() implies line_byte((s1 + s2)[i]) by {
        if i < s1.len() {
            assert((s1 + s2)[i] == s1[i]);
        } else {
            assert((s1 + s2)[i] == s2[i - s1.len()]);
        }
    }
}

proof fn lemma_groups_line_bytes(recs: Seq<PixelRecord>)
    requires
        recs.len() >= 1,
    ensures
        all_line_bytes(groups_rep(recs)),
    decreases recs.len(),
{
    lemma_tuple_rep_bytes(recs[0]);
    let t1 = tuple_rep(recs[0]);
    assert(all_line_bytes(t1));
    if recs.len() == 1 {
    } else {
        lemma_groups_line_bytes(recs.drop_first());
        assert(all_line_bytes(sep_rep()));
        lemma_app_line_bytes(t1, sep_rep());
        lemma_app_line_bytes(t1 + sep_rep(), groups_rep(recs.drop_first()));
    }
}

proof fn lemma_pixel_line_bytes(recs: Seq<PixelRecord>)
    ensures
        all_line_bytes(pixel_line_rep(recs)),
{
    if recs.len() == 0 {
    } else {
        lemma_groups_line_bytes(recs);
        assert(all_line_bytes(seq![0x5bu8]));
        assert(all_line_bytes(seq![0x5du8]));
        lemma_app_line_bytes(seq![0x5bu8], groups_rep(recs));
        lemma_app_line_bytes(seq![0x5bu8] + groups_rep(recs), seq![0x5du8]);
    }
}

/// An encoded body splits into its dimensions line and its pixel-data
/// line, provided some record was kept.
proof fn lemma_lines_of_encoding(height: u32, width: u32, recs: Seq<PixelRecord>)
    requires
        recs.len() >= 1,
    ensures
        lines_of(encode_rep(height, width, recs)) == seq![
            dec_rep(height as nat) + seq![0x20u8] + dec_rep(width as nat),
            pixel_line_rep(recs),
        ],
{
    let dh = dec_rep(height as nat);
    let dw = dec_rep(width as nat);
    lemma_dec_rep(height as nat);
    lemma_dec_rep(width as nat);
    let dims = dh + seq![0x20u8] + dw;
    let pix = pixel_line_rep(recs);
    let text = encode_rep(height, width, recs);
    assert(text =~= dims + seq![0x0au8] + pix);
    assert(text =~= dims + (seq![0x0au8] + pix));
    assert forall|j: int| 0 <= j < dims.len() implies text[j] != 0x0a by {
        assert(text[j] == dims[j]);
        if j < dh.len() {
            assert(dims[j] == dh[j]);
            assert(is_ascii_digit(dh[j]));
        } else if j == dh.len() {
            assert(dims[j] == 0x20);
        } else {
            assert(dims[j] == dw[j - dh.len() - 1]);
            assert(is_ascii_digit(dw[j - dh.len() - 1]));
        }
    }
    lemma_lines_advance(text, Seq::empty(), dims.len() as int);
    assert(Seq::empty() + text.take(dims.len() as int) =~= dims);
    let u = text.skip(dims.len() as int);
    assert(u =~= seq![0x0au8] + pix);
    assert(u[0] == 0x0a);
    assert(u.drop_first() =~= pix);
    assert(dims.last() == dw.last());
    assert(is_ascii_digit(dw[dw.len() - 1]));
    assert(strip_cr(dims) == dims);
    lemma_pixel_line_bytes(recs);
    assert forall|j: int| 0 <= j < pix.len() implies pix[j] != 0x0a by {
        assert(line_byte(pix[j]));
    }
    lemma_lines_advance(pix, Seq::empty(), pix.len() as int);
    assert(Seq::empty() + pix.take(pix.len() as int) =~= pix);
    assert(pix.skip(pix.len() as int) =~= Seq::<u8>::empty());
    assert(pix == seq![0x5bu8] + groups_rep(recs) + seq![0x5du8]);
    assert(pix.len() > 0);
    assert(pix.last() == 0x5d);
    assert(strip_cr(pix) == pix);
    assert(lines_of(text) =~= seq![dims, pix]);
}

/// Decoding an encoded body returns the encoded dimensions, height before
/// width, and exactly the encoded records in their order.
pub proof fn lemma_decode_encoded(height: u32, width: u32, recs: Seq<PixelRecord>)
    requires
        recs.len() >= 1,
        forall|i: int| 0 <= i < recs.len() ==> (#[trigger] recs[i]).x <= 255 && recs[i].y <= 255,
    ensures
        decode_text_spec(encode_rep(height, width, recs)) == Ok::<SigmaDocV, SigmaError>(
            SigmaDocV { height, width, pixels: recs },
        ),
{
    lemma_lines_of_encoding(height, width, recs);
    let ls = lines_of(encode_rep(height, width, recs));
    assert(ls.len() == 2);
    assert(ls[0] == dec_rep(height as nat) + seq![0x20u8] + dec_rep(width as nat));
    assert(ls[1] == pixel_line_rep(recs));
    lemma_dims_tokens(height, width);
    let vs = numeric_dims(ls[0]);
    assert(vs.len() == 2);
    assert(vs[0] == height && vs[1] == width);
    lemma_records_of_line(recs);
}

/// The quotient of an index inside the grid stays below the height.
proof fn lemma_flat_coords(w: int, h: int, j: int)
    requires
        0 < w,
        0 <= j,
        j < w * h,
    ensures
        0 <= j % w < w,
        0 <= j / w < h,
        (j / w) * w + j % w == j,
{
    vstd::arithmetic::div_mod::lemma_mod_bound(j, w);
    vstd::arithmetic::div_mod::lemma_div_pos_is_pos(j, w);
    vstd::arithmetic::div_mod::lemma_fundamental_div_mod(j, w);
    assert(j == w * (j / w) + j % w);
    vstd::arithmetic::mul::lemma_mul_is_commutative(w, j / w);
    if j / w >= h {
        vstd::arithmetic::mul::lemma_mul_inequality(h, j / w, w);
        vstd::arithmetic::mul::lemma_mul_is_commutative(w, h);
    }
}

/// Every record the encoder keeps lies inside the grid and has nonzero
/// alpha.
proof fn lemma_sparse_bounds(cells: Seq<Pixel>, w: int, h: int, k: int)
    requires
        0 < w,
        w <= u32::MAX,
        0 <= k,
        k <= w * h,
    ensures
        forall|i: int| 0 <= i < sparse_prefix(cells, w, k).len() ==> {
            &&& (#[trigger] sparse_prefix(cells, w, k)[i]).x < w
            &&& sparse_prefix(cells, w, k)[i].y < h
            &&& sparse_prefix(cells, w, k)[i].a != 0
        },
    decreases k,
{
    if k == 0 {
    } else {
        lemma_sparse_bounds(cells, w, h, k - 1);
        let prev = sparse_prefix(cells, w, k - 1);
        let curr = sparse_prefix(cells, w, k);
        lemma_flat_coords(w, h, k - 1);
        assert forall|i: int| 0 <= i < curr.len() implies {
            &&& (#[trigger] curr[i]).x < w
            &&& curr[i].y < h
            &&& curr[i].a != 0
        } by {
            if i < prev.len() {
                assert(curr[i] == prev[i]);
            } else {
                assert(cells[k - 1].a != 0);
                assert(curr[i] == record_at(cells, w, k - 1));
            }
        }
    }
}

/// Writing records never changes how many cells there are.
proof fn lemma_place_all_len(cells: Seq<Pixel>, w: int, h: int, recs: Seq<PixelRecord>)
    requires
        cells.len() == w * h,
        0 <= w,
        0 <= h,
    ensures
        place_all(cells, w, h, recs).len() == w * h,
    decreases recs.len(),
{
    if recs.len() > 0 {
        lemma_place_all_len(cells, w, h, recs.drop_last());
        let before = place_all(cells, w, h, recs.drop_last());
        let rec = recs.last();
        if rec.a != 0 && (rec.x as int) < w && (rec.y as int) < h {
            vstd::arithmetic::mul::lemma_mul_inequality((rec.y as int) + 1, h, w);
            assert((rec.y as int) * w + (rec.x as int) < h * w) by (nonlinear_arith)
                requires
                    (rec.x as int) < w,
                    ((rec.y as int) + 1) * w <= h * w,
            ;
            vstd::arithmetic::mul::lemma_mul_is_commutative(w, h);
        }
    }
}

/// Rebuilding from the records of the first `k` cells sets exactly the
/// visible among those cells and leaves every other cell transparent.
proof fn lemma_rebuild_prefix(cells: Seq<Pixel>, w: int, h: int, k: int)
    requires
        cells.len() == w * h,
        0 < w,
        0 < h,
        w <= u32::MAX,
        h <= u32::MAX,
        0 <= k <= w * h,
    ensures
        forall|i: int| 0 <= i < w * h ==> #[trigger] place_all(
            blank(w, h),
            w,
            h,
            sparse_prefix(cells, w, k),
        )[i] == (if i < k && cells[i].a != 0 {
            cells[i]
        } else {
            transparent()
        }),
    decreases k,
{
    if k == 0 {
        assert(sparse_prefix(cells, w, 0) =~= Seq::<PixelRecord>::empty());
        assert(forall|i: int|
            0 <= i < w * h ==> #[trigger] blank(w, h)[i] == transparent());
    } else {
        lemma_rebuild_prefix(cells, w, h, k - 1);
        let prev = sparse_prefix(cells, w, k - 1);
        let curr = sparse_prefix(cells, w, k);
        let before = place_all(blank(w, h), w, h, prev);
        assert(blank(w, h).len() == w * h);
        lemma_place_all_len(blank(w, h), w, h, prev);
        lemma_flat_coords(w, h, k - 1);
        if cells[k - 1].a != 0 {
            let rec = record_at(cells, w, k - 1);
            assert(curr == prev + seq![rec]);
            assert(curr.drop_last() =~= prev);
            assert(curr.last() == rec);
            assert(curr.len() > 0);
            assert(place_all(blank(w, h), w, h, curr) == place(before, w, h, rec));
            assert(rec.x as int == (k - 1) % w);
            assert(rec.y as int == (k - 1) / w);
            assert(rec.a != 0);
            assert((rec.y as int) * w + (rec.x as int) == k - 1);
            assert(place(before, w, h, rec) == before.update(
                k - 1,
                Pixel { r: rec.r, g: rec.g, b: rec.b, a: rec.a },
            ));
            assert(Pixel { r: rec.r, g: rec.g, b: rec.b, a: rec.a } == cells[k - 1]);
            assert(before.len() == w * h);
        } else {
            assert(curr =~= prev);
        }
    }
}

/// The round trip of the codec. Encoding a grid and decoding the body
/// yields the grid's height and width and exactly its non-transparent
/// pixels in row-major order; rebuilding cells from those records
/// reproduces every pixel whose alpha is nonzero and leaves every other
/// cell fully transparent, its color not preserved. Both dimensions must
/// fit the one-byte coordinates of the pixel groups, and some pixel must
/// be visible, for an all-transparent grid encodes to a one-line body
/// that does not decode.
pub proof fn lemma_round_trip(g: Grid)
    requires
        g.wf(),
        g.width <= 256,
        g.height <= 256,
        sparse_of(g).len() > 0,
    ensures
        decode_text_spec(encode_rep(g.height, g.width, sparse_of(g))) == Ok::<
            SigmaDocV,
            SigmaError,
        >(SigmaDocV { height: g.height, width: g.width, pixels: sparse_of(g) }),
        forall|i: int| 0 <= i < (g.width as int) * (g.height as int) ==> #[trigger] place_all(
            blank(g.width as int, g.height as int),
            g.width as int,
            g.height as int,
            sparse_of(g),
        )[i] == (if g.cells@[i].a != 0 {
            g.cells@[i]
        } else {
            transparent()
        }),
{
    let w = g.width as int;
    let h = g.height as int;
    if w * h <= 0 {
        assert(sparse_prefix(g.cells@, w, w * h) =~= Seq::<PixelRecord>::empty());
    }
    assert(w * h > 0);
    if w == 0 {
        vstd::arithmetic::mul::lemma_mul_basics(h);
        assert(w * h == 0);
    }
    if h == 0 {
        vstd::arithmetic::mul::lemma_mul_basics(w);
        assert(w * h == 0);
    }
    assert(w > 0 && h > 0);
    lemma_sparse_bounds(g.cells@, w, h, w * h);
    let recs = sparse_of(g);
    assert forall|i: int| 0 <= i < recs.len() implies (#[trigger] recs[i]).x <= 255 && recs[i].y
        <= 255 by {
        assert(recs[i].x < w && recs[i].y < h);
    }
    lemma_decode_encoded(g.height, g.width, recs);
    lemma_rebuild_prefix(g.cells@, w, h, w * h);
}

/// The compressed round trip: bytes that decompress to the encoding of a
/// grid decode to that grid's document, exactly as the plain text does.
pub proof fn lemma_round_trip_compressed(g: Grid, data: Seq<u8>)
    requires
        g.wf(),
        g.width <= 256,
        g.height <= 256,
        sparse_of(g).len() > 0,
        crate::gzip::gunzip_of(data) == Some(encode_rep(g.height, g.width, sparse_of(g))),
    ensures
        crate::gzip::decode_bytes_spec(data) == Ok::<SigmaDocV, SigmaError>(
            SigmaDocV { height: g.height, width: g.width, pixels: sparse_of(g) },
        ),
{
    lemma_round_trip(g);
}

} // verus!
