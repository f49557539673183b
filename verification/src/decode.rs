//! The sigma decoder: strict about the line structure and the dimensions
//! line, tolerant of malformed pixel groups.

use vstd::prelude::*;
use crate::ascii::{is_space, parse_u32_spec, parse_u8_spec, parse_u32_token, parse_u8_token,
    is_space_byte};
use crate::records::{PixelRecord, SigmaDoc, SigmaDocV, SigmaError};
use crate::scan::{sep_rep, match_at, lemma_find_sub, strip_cr,
    strip_cr_slice, trim_ws_spec, trim_br_spec, trim_ws, trim_brackets, scan_byte, scan_sep,
    scan_space};

verus! {

pub open spec fn opt_u32_seq(o: Option<u32>) -> Seq<u32> {
    match o {
        Some(v) => seq![v],
        None => Seq::empty(),
    }
}

pub open spec fn opt_u8_seq(o: Option<u8>) -> Seq<u8> {
    match o {
        Some(v) => seq![v],
        None => Seq::empty(),
    }
}

pub open spec fn opt_rec_seq(o: Option<PixelRecord>) -> Seq<PixelRecord> {
    match o {
        Some(r) => seq![r],
        None => Seq::empty(),
    }
}

/// The lines of the body: split at each newline, one trailing carriage
/// return removed per line; `cur` is the part of the current line already
/// passed over.
pub open spec fn lines_from(s: Seq<u8>, cur: Seq<u8>) -> Seq<Seq<u8>>
    decreases s.len(),
{
    if s.len() == 0 {
        if cur.len() == 0 {
            Seq::empty()
        } else {
            seq![strip_cr(cur)]
        }
    } else if s[0] == 0x0a {
        seq![strip_cr(cur)] + lines_from(s.drop_first(), Seq::empty())
    } else {
        lines_from(s.drop_first(), cur.push(s[0]))
    }
}

pub open spec fn lines_of(s: Seq<u8>) -> Seq<Seq<u8>> {
    lines_from(s, Seq::empty())
}

/// The numeric tokens of the dimensions line: whitespace-separated tokens,
/// those that read as a `u32` kept in order.
pub open spec fn u32s_from(s: Seq<u8>, cur: Seq<u8>) -> Seq<u32>
    decreases s.len(),
{
    if s.len() == 0 {
        if cur.len() == 0 {
            Seq::empty()
        } else {
            opt_u32_seq(parse_u32_spec(cur))
        }
    } else if is_space(s[0]) {
        (if cur.len() == 0 {
            Seq::empty()
        } else {
            opt_u32_seq(parse_u32_spec(cur))
        }) + u32s_from(s.drop_first(), Seq::empty())
    } else {
        u32s_from(s.drop_first(), cur.push(s[0]))
    }
}

pub open spec fn numeric_dims(line: Seq<u8>) -> Seq<u32> {
    u32s_from(line, Seq::empty())
}

/// The values of one pixel group: comma-separated tokens, each trimmed,
/// those that read as a `u8` kept in order.
pub open spec fn u8s_from(s: Seq<u8>, cur: Seq<u8>) -> Seq<u8>
    decreases s.len(),
{
    if s.len() == 0 {
        opt_u8_seq(parse_u8_spec(trim_ws_spec(cur)))
    } else if s[0] == 0x2c {
        opt_u8_seq(parse_u8_spec(trim_ws_spec(cur))) + u8s_from(s.drop_first(), Seq::empty())
    } else {
        u8s_from(s.drop_first(), cur.push(s[0]))
    }
}

pub open spec fn group_values(g: Seq<u8>) -> Seq<u8> {
    u8s_from(trim_ws_spec(trim_br_spec(g)), Seq::empty())
}

/// The record of one pixel group, if at least six of its tokens read as
/// numbers: red, green, blue, alpha, x, y, in that order; later values are
/// ignored. A shorter group yields nothing and no error.
pub open spec fn group_record(g: Seq<u8>) -> Option<PixelRecord> {
    let vs = group_values(g);
    if vs.len() >= 6 {
        Some(
            PixelRecord {
                r: vs[0],
                g: vs[1],
                b: vs[2],
                a: vs[3],
                x: vs[4] as u32,
                y: vs[5] as u32,
            },
        )
    } else {
        None
    }
}

/// The records of the pixel-data line: groups split at each `],[`, the
/// well-formed ones kept in order.
pub open spec fn records_from(s: Seq<u8>, cur: Seq<u8>) -> Seq<PixelRecord>
    decreases s.len(),
{
    if s.len() >= 3 && s.subrange(0, 3) == sep_rep() {
        opt_rec_seq(group_record(cur)) + records_from(s.skip(3), Seq::empty())
    } else if s.len() == 0 {
        opt_rec_seq(group_record(cur))
    } else {
        records_from(s.drop_first(), cur.push(s[0]))
    }
}

pub open spec fn pixel_records(line: Seq<u8>) -> Seq<PixelRecord> {
    records_from(line, Seq::empty())
}

/// What decoding a sigma body yields: an error when fewer than two lines
/// stand in it or when the dimensions line does not hold exactly two
/// numeric tokens, else the dimensions (height first) and the records.
pub open spec fn decode_text_spec(t: Seq<u8>) -> Result<SigmaDocV, SigmaError> {
    let ls = lines_of(t);
    if ls.len() < 2 {
        Err(SigmaError::MissingPixelData)
    } else {
        let vs = numeric_dims(ls[0]);
        if vs.len() != 2 {
            Err(SigmaError::InvalidDimensions)
        } else {
            Ok(SigmaDocV { height: vs[0], width: vs[1], pixels: pixel_records(ls[1]) })
        }
    }
}

/// Strictness of the dimensions line: with at least two lines, decoding
/// fails with `InvalidDimensions` exactly when the first line does not
/// hold exactly two numeric tokens, however much whitespace surrounds
/// them.
pub proof fn lemma_dimensions_strictness(t: Seq<u8>)
    requires
        lines_of(t).len() >= 2,
    ensures
        (numeric_dims(lines_of(t)[0]).len() != 2) <==> decode_text_spec(t) == Err::<
            SigmaDocV,
            SigmaError,
        >(SigmaError::InvalidDimensions),
{
}

/// Tolerance of the pixel-data line: with two lines and a well-formed
/// dimensions line the decoder succeeds, whatever the pixel-data line
/// holds; malformed groups are dropped, never fatal.
pub proof fn lemma_pixel_tolerance(t: Seq<u8>)
    requires
        lines_of(t).len() >= 2,
        numeric_dims(lines_of(t)[0]).len() == 2,
    ensures
        decode_text_spec(t) is Ok,
{
}

/// Passing over `e` bytes with no newline among them only grows the
/// current line.
pub proof fn lemma_lines_advance(s: Seq<u8>, cur: Seq<u8>, e: int)
    requires
        0 <= e <= s.len(),
        forall|j: int| 0 <= j < e ==> s[j] != 0x0a,
    ensures
        lines_from(s, cur) == lines_from(s.skip(e), cur + s.take(e)),
    decreases e,
{
    if e == 0 {
        assert(s.skip(0) =~= s);
        assert(cur + s.take(0) =~= cur);
    } else {
        assert(s[0] != 0x0a);
        lemma_lines_advance(s.drop_first(), cur.push(s[0]), e - 1);
        assert(s.drop_first().skip(e - 1) =~= s.skip(e));
        assert(cur.push(s[0]) + s.drop_first().take(e - 1) =~= cur + s.take(e));
    }
}

/// Passing over `e` bytes with no whitespace among them only grows the
/// current token.
pub proof fn lemma_u32s_advance(s: Seq<u8>, cur: Seq<u8>, e: int)
    requires
        0 <= e <= s.len(),
        forall|j: int| 0 <= j < e ==> !is_space(s[j]),
    ensures
        u32s_from(s, cur) == u32s_from(s.skip(e), cur + s.take(e)),
    decreases e,
{
    if e == 0 {
        assert(s.skip(0) =~= s);
        assert(cur + s.take(0) =~= cur);
    } else {
        assert(!is_space(s[0]));
        lemma_u32s_advance(s.drop_first(), cur.push(s[0]), e - 1);
        assert(s.drop_first().skip(e - 1) =~= s.skip(e));
        assert(cur.push(s[0]) + s.drop_first().take(e - 1) =~= cur + s.take(e));
    }
}

/// Passing over `e` bytes with no comma among them only grows the current
/// token.
pub proof fn lemma_u8s_advance(s: Seq<u8>, cur: Seq<u8>, e: int)
    requires
        0 <= e <= s.len(),
        forall|j: int| 0 <= j < e ==> s[j] != 0x2c,
    ensures
        u8s_from(s, cur) == u8s_from(s.skip(e), cur + s.take(e)),
    decreases e,
{
    if e == 0 {
        assert(s.skip(0) =~= s);
        assert(cur + s.take(0) =~= cur);
    } else {
        assert(s[0] != 0x2c);
        lemma_u8s_advance(s.drop_first(), cur.push(s[0]), e - 1);
        assert(s.drop_first().skip(e - 1) =~= s.skip(e));
        assert(cur.push(s[0]) + s.drop_first().take(e - 1) =~= cur + s.take(e));
    }
}

/// Passing over `e` bytes with no group separator starting among them only
/// grows the current group.
pub proof fn lemma_records_advance(s: Seq<u8>, cur: Seq<u8>, e: int)
    requires
        0 <= e <= s.len(),
        forall|j: int| 0 <= j < e ==> !match_at(s, sep_rep(), j),
    ensures
        records_from(s, cur) == records_from(s.skip(e), cur + s.take(e)),
    decreases e,
{
    if e == 0 {
        assert(s.skip(0) =~= s);
        assert(cur + s.take(0) =~= cur);
    } else {
        assert(!match_at(s, sep_rep(), 0));
        assert(s.len() >= 3 && s.subrange(0, 3) == sep_rep() ==> match_at(s, sep_rep(), 0));
        assert forall|j: int| 0 <= j < e - 1 implies !match_at(
            s.drop_first(),
            sep_rep(),
            j,
        ) by {
            if match_at(s.drop_first(), sep_rep(), j) {
                assert(s.subrange(j + 1, j + 1 + 3) =~= s.drop_first().subrange(j, j + 3));
                assert(match_at(s, sep_rep(), j + 1));
            }
        }
        lemma_records_advance(s.drop_first(), cur.push(s[0]), e - 1);
        assert(s.drop_first().skip(e - 1) =~= s.skip(e));
        assert(cur.push(s[0]) + s.drop_first().take(e - 1) =~= cur + s.take(e));
    }
}

/// Reads the numeric tokens of a dimensions line.
pub fn parse_dims_tokens(line: &[u8]) -> (vals: Vec<u32>)
    ensures
        vals@ == numeric_dims(line@),
{
    let n = line.len();
    let mut vals: Vec<u32> = Vec::new();
    let mut pos: usize = 0;
    proof {
        assert(line@.skip(0) =~= line@);
    }
    while pos < n
        invariant
            pos <= n,
            n == line@.len(),
            numeric_dims(line@) == vals@ + u32s_from(line@.skip(pos as int), Seq::empty()),
        decreases n - pos,
    {
        let b = *vstd::slice::slice_index_get(line, pos);
        if is_space_byte(b) {
            proof {
                let t = line@.skip(pos as int);
                assert(is_space(t[0]));
                assert(t.drop_first() =~= line@.skip(pos + 1));
                assert(u32s_from(t, Seq::empty()) == u32s_from(
                    line@.skip(pos + 1),
                    Seq::empty(),
                ));
            }
            pos = pos + 1;
        } else {
            let rest = vstd::slice::slice_subrange(line, pos, n);
            let ghost t = line@.skip(pos as int);
            match scan_space(rest) {
                Some(i) => {
                    let tok = vstd::slice::slice_subrange(rest, 0, i);
                    proof {
                        lemma_u32s_advance(t, Seq::empty(), i as int);
                        assert(Seq::empty() + t.take(i as int) =~= tok@);
                        let u = t.skip(i as int);
                        assert(is_space(u[0]));
                        assert(tok@.len() > 0);
                        assert(u.drop_first() =~= line@.skip(pos + i + 1));
                        assert(u32s_from(t, Seq::empty()) == opt_u32_seq(parse_u32_spec(tok@))
                            + u32s_from(line@.skip(pos + i + 1), Seq::empty()));
                    }
                    match parse_u32_token(tok) {
                        Some(v) => {
                            vals.push(v);
                        },
                        None => {
                        },
                    }
                    pos = pos + i + 1;
                },
                None => {
                    proof {
                        lemma_u32s_advance(t, Seq::empty(), t.len() as int);
                        assert(Seq::empty() + t.take(t.len() as int) =~= t);
                        assert(t.skip(t.len() as int) =~= Seq::<u8>::empty());
                        assert(t.len() > 0);
                        assert(u32s_from(t, Seq::empty()) == opt_u32_seq(parse_u32_spec(t)));
                        assert(rest@ == t);
                    }
                    match parse_u32_token(rest) {
                        Some(v) => {
                            vals.push(v);
                        },
                        None => {
                        },
                    }
                    pos = n;
                    proof {
                        assert(u32s_from(line@.skip(pos as int), Seq::empty()) =~= Seq::<
                            u32,
                        >::empty());
                    }
                },
            }
        }
    }
    proof {
        assert(line@.skip(n as int) =~= Seq::<u8>::empty());
        assert(vals@ =~= numeric_dims(line@));
    }
    vals
}

/// Reads one pixel group; `None` when fewer than six tokens read as
/// numbers.
pub fn parse_pixel_group(g: &[u8]) -> (r: Option<PixelRecord>)
    ensures
        r == group_record(g@),
{
    let core = trim_ws(trim_brackets(g));
    let n = core.len();
    let mut vals: Vec<u8> = Vec::new();
    let mut pos: usize = 0;
    let mut done = false;
    proof {
        assert(core@.skip(0) =~= core@);
    }
    while !done
        invariant
            pos <= n,
            n == core@.len(),
            core@ == trim_ws_spec(trim_br_spec(g@)),
            !done ==> group_values(g@) == vals@ + u8s_from(core@.skip(pos as int), Seq::empty()),
            done ==> vals@ == group_values(g@),
        decreases n - pos, (if done { 0int } else { 1int }),
    {
        let rest = vstd::slice::slice_subrange(core, pos, n);
        let ghost t = core@.skip(pos as int);
        match scan_byte(rest, 0x2c) {
            Some(i) => {
                proof {
                    lemma_find_sub(t, seq![0x2c]);
                    assert forall|j: int| 0 <= j < i implies t[j] != 0x2c by {
                        crate::scan::lemma_match_at_byte(t, 0x2c, j);
                    }
                    crate::scan::lemma_match_at_byte(t, 0x2c, i as int);
                    lemma_u8s_advance(t, Seq::empty(), i as int);
                    assert(Seq::empty() + t.take(i as int) =~= t.take(i as int));
                    let u = t.skip(i as int);
                    assert(u[0] == 0x2c);
                    assert(u.drop_first() =~= core@.skip(pos + i + 1));
                    assert(u8s_from(t, Seq::empty()) == opt_u8_seq(
                        parse_u8_spec(trim_ws_spec(t.take(i as int))),
                    ) + u8s_from(core@.skip(pos + i + 1), Seq::empty()));
                }
                let piece = vstd::slice::slice_subrange(rest, 0, i);
                let tok = trim_ws(piece);
                match parse_u8_token(tok) {
                    Some(v) => {
                        vals.push(v);
                    },
                    None => {
                    },
                }
                pos = pos + i + 1;
            },
            None => {
                proof {
                    lemma_find_sub(t, seq![0x2c]);
                    assert forall|j: int| 0 <= j < t.len() implies t[j] != 0x2c by {
                        crate::scan::lemma_match_at_byte(t, 0x2c, j);
                    }
                    lemma_u8s_advance(t, Seq::empty(), t.len() as int);
                    assert(Seq::empty() + t.take(t.len() as int) =~= t);
                    assert(t.skip(t.len() as int) =~= Seq::<u8>::empty());
                    assert(u8s_from(t, Seq::empty()) == opt_u8_seq(
                        parse_u8_spec(trim_ws_spec(t)),
                    ));
                }
                let tok = trim_ws(rest);
                match parse_u8_token(tok) {
                    Some(v) => {
                        vals.push(v);
                    },
                    None => {
                    },
                }
                done = true;
            },
        }
    }
    if vals.len() >= 6 {
        let rec = PixelRecord {
            r: vals[0],
            g: vals[1],
            b: vals[2],
            a: vals[3],
            x: vals[4] as u32,
            y: vals[5] as u32,
        };
        Some(rec)
    } else {
        None
    }
}

/// Reads the pixel-data line, keeping the well-formed groups in order.
pub fn parse_pixel_line(line: &[u8]) -> (recs: Vec<PixelRecord>)
    ensures
        recs@ == pixel_records(line@),
{
    let n = line.len();
    let mut recs: Vec<PixelRecord> = Vec::new();
    let mut pos: usize = 0;
    let mut done = false;
    proof {
        assert(line@.skip(0) =~= line@);
    }
    while !done
        invariant
            pos <= n,
            n == line@.len(),
            !done ==> pixel_records(line@) == recs@ + records_from(
                line@.skip(pos as int),
                Seq::empty(),
            ),
            done ==> recs@ == pixel_records(line@),
        decreases n - pos, (if done { 0int } else { 1int }),
    {
        let rest = vstd::slice::slice_subrange(line, pos, n);
        let ghost t = line@.skip(pos as int);
        match scan_sep(rest) {
            Some(i) => {
                proof {
                    lemma_find_sub(t, sep_rep());
                    lemma_records_advance(t, Seq::empty(), i as int);
                    assert(Seq::empty() + t.take(i as int) =~= t.take(i as int));
                    let u = t.skip(i as int);
                    assert(u.subrange(0, 3) =~= t.subrange(i as int, i + 3));
                    assert(t.subrange(i as int, i + 3) == sep_rep());
                    assert(u.skip(3) =~= line@.skip(pos + i + 3));
                    assert(records_from(t, Seq::empty()) == opt_rec_seq(
                        group_record(t.take(i as int)),
                    ) + records_from(line@.skip(pos + i + 3), Seq::empty()));
                }
                let piece = vstd::slice::slice_subrange(rest, 0, i);
                match parse_pixel_group(piece) {
                    Some(rec) => {
                        recs.push(rec);
                    },
                    None => {
                    },
                }
                pos = pos + i + 3;
            },
            None => {
                proof {
                    lemma_find_sub(t, sep_rep());
                    lemma_records_advance(t, Seq::empty(), t.len() as int);
                    assert(Seq::empty() + t.take(t.len() as int) =~= t);
                    assert(t.skip(t.len() as int) =~= Seq::<u8>::empty());
                    assert(records_from(t, Seq::empty()) == opt_rec_seq(group_record(t)));
                }
                match parse_pixel_group(rest) {
                    Some(rec) => {
                        recs.push(rec);
                    },
                    None => {
                    },
                }
                done = true;
            },
        }
    }
    recs
}

/// Decodes a sigma body already freed of compression.
pub fn decode_sigma_text(text: &[u8]) -> (r: Result<SigmaDoc, SigmaError>)
    ensures
        match r {
            Ok(doc) => decode_text_spec(text@) == Ok::<SigmaDocV, SigmaError>(doc@),
            Err(e) => decode_text_spec(text@) == Err::<SigmaDocV, SigmaError>(e),
        },
{
    let n = text.len();
    match scan_byte(text, 0x0a) {
        None => {
            proof {
                lemma_find_sub(text@, seq![0x0a]);
                assert forall|j: int| 0 <= j < text@.len() implies text@[j] != 0x0a by {
                    crate::scan::lemma_match_at_byte(text@, 0x0a, j);
                }
                lemma_lines_advance(text@, Seq::empty(), text@.len() as int);
                assert(Seq::empty() + text@.take(text@.len() as int) =~= text@);
                assert(text@.skip(text@.len() as int) =~= Seq::<u8>::empty());
                assert(lines_of(text@).len() < 2);
            }
            Err(SigmaError::MissingPixelData)
        },
        Some(i) => {
            let raw1 = vstd::slice::slice_subrange(text, 0, i);
            let line1 = strip_cr_slice(raw1);
            let rest = vstd::slice::slice_subrange(text, i + 1, n);
            proof {
                lemma_find_sub(text@, seq![0x0a]);
                assert forall|j: int| 0 <= j < i implies text@[j] != 0x0a by {
                    crate::scan::lemma_match_at_byte(text@, 0x0a, j);
                }
                crate::scan::lemma_match_at_byte(text@, 0x0a, i as int);
                lemma_lines_advance(text@, Seq::empty(), i as int);
                assert(Seq::empty() + text@.take(i as int) =~= raw1@);
                let u = text@.skip(i as int);
                assert(u[0] == 0x0a);
                assert(u.drop_first() =~= rest@);
                assert(lines_of(text@) == seq![strip_cr(raw1@)] + lines_from(
                    rest@,
                    Seq::empty(),
                ));
            }
            let m = rest.len();
            match scan_byte(rest, 0x0a) {
                None => {
                    proof {
                        lemma_find_sub(rest@, seq![0x0a]);
                        assert forall|j: int| 0 <= j < rest@.len() implies rest@[j] != 0x0a by {
                            crate::scan::lemma_match_at_byte(rest@, 0x0a, j);
                        }
                        lemma_lines_advance(rest@, Seq::empty(), rest@.len() as int);
                        assert(Seq::empty() + rest@.take(rest@.len() as int) =~= rest@);
                        assert(rest@.skip(rest@.len() as int) =~= Seq::<u8>::empty());
                    }
                    if m == 0 {
                        proof {
                            assert(lines_of(text@).len() == 1);
                        }
                        Err(SigmaError::MissingPixelData)
                    } else {
                        let line2 = strip_cr_slice(rest);
                        proof {
                            assert(lines_of(text@) =~= seq![strip_cr(raw1@), strip_cr(rest@)]);
                        }
                        finish_decode(text, line1, line2)
                    }
                },
                Some(j) => {
                    let raw2 = vstd::slice::slice_subrange(rest, 0, j);
                    let line2 = strip_cr_slice(raw2);
                    proof {
                        lemma_find_sub(rest@, seq![0x0a]);
                        assert forall|k: int| 0 <= k < j implies rest@[k] != 0x0a by {
                            crate::scan::lemma_match_at_byte(rest@, 0x0a, k);
                        }
                        crate::scan::lemma_match_at_byte(rest@, 0x0a, j as int);
                        lemma_lines_advance(rest@, Seq::empty(), j as int);
                        assert(Seq::empty() + rest@.take(j as int) =~= raw2@);
                        let u = rest@.skip(j as int);
                        assert(u[0] == 0x0a);
                        assert(lines_from(rest@, Seq::empty()) == seq![strip_cr(raw2@)]
                            + lines_from(u.drop_first(), Seq::empty()));
                        assert(lines_of(text@)[0] == strip_cr(raw1@));
                        assert(lines_of(text@)[1] == strip_cr(raw2@));
                        assert(lines_of(text@).len() >= 2);
                    }
                    finish_decode(text, line1, line2)
                },
            }
        },
    }
}

/// The tail of decoding, once the first two lines are in hand.
fn finish_decode(text: &[u8], line1: &[u8], line2: &[u8]) -> (r: Result<SigmaDoc, SigmaError>)
    requires
        lines_of(text@).len() >= 2,
        lines_of(text@)[0] == line1@,
        lines_of(text@)[1] == line2@,
    ensures
        match r {
            Ok(doc) => decode_text_spec(text@) == Ok::<SigmaDocV, SigmaError>(doc@),
            Err(e) => decode_text_spec(text@) == Err::<SigmaDocV, SigmaError>(e),
        },
{
    let vals = parse_dims_tokens(line1);
    if vals.len() != 2 {
        return Err(SigmaError::InvalidDimensions);
    }
    let height = vals[0];
    let width = vals[1];
    let pixels = parse_pixel_line(line2);
    Ok(SigmaDoc { height, width, pixels })
}

} // verus!
