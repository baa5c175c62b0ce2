//! Rewriting unified-diff block headers inside raw patch text: recomputing
//! the line counts from the content, and shifting the start offsets.

use vstd::prelude::*;

use crate::parse::{
    dec_spec, ends_with, find_byte_spec, hdr_prefix, hdr_suffix, header_spec, is_digit,
    lemma_dec_round_trip, lemma_dec_spec_digits, lemma_find_byte, lemma_lines_count,
    lemma_lines_pos_bound, lines_spec, lines_view, lines_with_pos, patch_block_header,
    starts_with, strip_cr,
};

verus! {

// ---------------------------------------------------------------------------
// formatting a header
// ---------------------------------------------------------------------------

/// The canonical text of a block header: `@@ -a,b +c,d @@`.
pub open spec fn format_header_spec(a: u64, b: u64, c: u64, d: u64) -> Seq<u8> {
    hdr_prefix() + seq![45u8] + dec_spec(a as int) + seq![44u8] + dec_spec(b as int) + seq![
        32u8,
        43u8,
    ] + dec_spec(c as int) + seq![44u8] + dec_spec(d as int) + hdr_suffix()
}

/// Format `n` in decimal, most significant digit first.
pub fn u64_to_dec(n: u64) -> (r: Vec<u8>)
    ensures
        r@ == dec_spec(n as int),
    decreases n,
{
    if n < 10 {
        let mut v: Vec<u8> = Vec::new();
        v.push((48 + n) as u8);
        proof {
            assert(v@ =~= dec_spec(n as int));
        }
        v
    } else {
        let mut v = u64_to_dec(n / 10);
        v.push((48 + (n % 10)) as u8);
        proof {
            assert(v@ =~= dec_spec(n as int));
        }
        v
    }
}

/// Format a block header `@@ -a,b +c,d @@` (without a line terminator).
pub fn format_header(a: u64, b: u64, c: u64, d: u64) -> (r: Vec<u8>)
    ensures
        r@ == format_header_spec(a, b, c, d),
{
    let mut v: Vec<u8> = Vec::new();
    v.push(64);
    v.push(64);
    v.push(32);
    v.push(45);
    let da = u64_to_dec(a);
    v.extend_from_slice(da.as_slice());
    v.push(44);
    let db = u64_to_dec(b);
    v.extend_from_slice(db.as_slice());
    v.push(32);
    v.push(43);
    let dc = u64_to_dec(c);
    v.extend_from_slice(dc.as_slice());
    v.push(44);
    let dd = u64_to_dec(d);
    v.extend_from_slice(dd.as_slice());
    v.push(32);
    v.push(64);
    v.push(64);
    proof {
        assert(v@ =~= format_header_spec(a, b, c, d));
    }
    v
}

/// No byte of a formatted header is a line terminator, a carriage return,
/// or anything else outside the printable header alphabet.
pub proof fn lemma_format_header_bytes(a: u64, b: u64, c: u64, d: u64)
    ensures
        forall|i: int|
            0 <= i < format_header_spec(a, b, c, d).len() ==> {
                let x = #[trigger] format_header_spec(a, b, c, d)[i];
                x != 10 && x != 13
            },
{
    lemma_dec_spec_digits(a as int);
    lemma_dec_spec_digits(b as int);
    lemma_dec_spec_digits(c as int);
    lemma_dec_spec_digits(d as int);
    let s = format_header_spec(a, b, c, d);
    assert forall|i: int| 0 <= i < s.len() implies {
        let x = #[trigger] s[i];
        x != 10 && x != 13
    } by {
        let da = dec_spec(a as int);
        let db = dec_spec(b as int);
        let dc = dec_spec(c as int);
        let dd = dec_spec(d as int);
        let p0: int = 4;
        let p1 = p0 + da.len();
        let p2 = p1 + 1 + db.len();
        let p3 = p2 + 2 + dc.len();
        let p4 = p3 + 1 + dd.len();
        if p0 <= i < p1 {
            assert(s[i] == da[i - p0]);
            assert(is_digit(da[i - p0]));
        } else if p1 + 1 <= i < p2 {
            assert(s[i] == db[i - p1 - 1]);
            assert(is_digit(db[i - p1 - 1]));
        } else if p2 + 2 <= i < p3 {
            assert(s[i] == dc[i - p2 - 2]);
            assert(is_digit(dc[i - p2 - 2]));
        } else if p3 + 1 <= i < p4 {
            assert(s[i] == dd[i - p3 - 1]);
            assert(is_digit(dd[i - p3 - 1]));
        }
    }
}

/// If `b` occurs at `j` and nowhere earlier, then `j` is where it is found.
proof fn lemma_find_byte_unique(s: Seq<u8>, b: u8, j: int)
    requires
        0 <= j < s.len(),
        s[j] == b,
        forall|m: int| 0 <= m < j ==> s[m] != b,
    ensures
        find_byte_spec(s, b) == j,
{
    lemma_find_byte(s, b);
    let f = find_byte_spec(s, b);
    if f < j {
        assert(s[f] == b);
    }
    if f > j {
        assert(s[j] != b);
    }
}

/// Parsing a canonically formatted header gives back its four numbers.
#[verifier::rlimit(100)]
pub proof fn lemma_header_round_trip(a: u64, b: u64, c: u64, d: u64)
    ensures
        header_spec(format_header_spec(a, b, c, d)) == Some(((a, b), (c, d))),
{
    lemma_dec_spec_digits(a as int);
    lemma_dec_spec_digits(b as int);
    lemma_dec_spec_digits(c as int);
    lemma_dec_spec_digits(d as int);
    let s = format_header_spec(a, b, c, d);
    let da = dec_spec(a as int);
    let db = dec_spec(b as int);
    let dc = dec_spec(c as int);
    let dd = dec_spec(d as int);
    assert(s.len() >= 6);
    assert(starts_with(s, hdr_prefix())) by {
        assert(s.take(3) =~= hdr_prefix());
    }
    assert(ends_with(s, hdr_suffix())) by {
        assert(s.skip(s.len() - 3) =~= hdr_suffix());
    }
    let h = s.subrange(3, s.len() - 3);
    // h == "-" + da + "," + db + " +" + dc + "," + dd
    assert(h =~= seq![45u8] + da + seq![44u8] + db + seq![32u8, 43u8] + dc + seq![44u8] + dd);
    let sp = 1 + da.len() + 1 + db.len();
    assert(h[sp as int] == 32);
    assert forall|m: int| 0 <= m < sp implies h[m] != 32 by {
        if m == 0 {
            assert(h[m] == 45);
        } else if m < 1 + da.len() {
            assert(h[m] == da[m - 1]);
            assert(is_digit(da[m - 1]));
        } else if m == 1 + da.len() {
            assert(h[m] == 44);
        } else {
            assert(h[m] == db[m - 2 - da.len()]);
            assert(is_digit(db[m - 2 - da.len()]));
        }
    }
    lemma_find_byte_unique(h, 32, sp as int);
    assert(find_byte_spec(h, 32) == sp);
    let r1 = h.take(sp as int);
    let r2 = h.skip(sp as int);
    assert(r1 =~= seq![45u8] + da + seq![44u8] + db);
    assert(r2 =~= seq![32u8, 43u8] + dc + seq![44u8] + dd);
    assert(r1[0] == 45 && r2[0] == 32 && r2[1] == 43);
    let a1 = r1.skip(1);
    let a2 = r2.skip(2);
    assert(a1 =~= da + seq![44u8] + db);
    assert(a2 =~= dc + seq![44u8] + dd);
    assert(a1[da.len() as int] == 44);
    assert forall|m: int| 0 <= m < da.len() implies a1[m] != 44 by {
        assert(a1[m] == da[m]);
        assert(is_digit(da[m]));
    }
    assert(a2[dc.len() as int] == 44);
    assert forall|m: int| 0 <= m < dc.len() implies a2[m] != 44 by {
        assert(a2[m] == dc[m]);
        assert(is_digit(dc[m]));
    }
    lemma_find_byte_unique(a1, 44, da.len() as int);
    lemma_find_byte_unique(a2, 44, dc.len() as int);
    let c1 = find_byte_spec(a1, 44);
    let c2 = find_byte_spec(a2, 44);
    assert(a1.take(c1) =~= da);
    assert(a1.skip(c1 + 1) =~= db);
    assert(a2.take(c2) =~= dc);
    assert(a2.skip(c2 + 1) =~= dd);
    lemma_dec_round_trip(a);
    lemma_dec_round_trip(b);
    lemma_dec_round_trip(c);
    lemma_dec_round_trip(d);
}

// ---------------------------------------------------------------------------
// recomputing the line counts
// ---------------------------------------------------------------------------

/// How a content line is tallied: 0 = context (or empty), 1 = removed,
/// 2 = added, 3 = malformed.
pub open spec fn tally_class(line: Seq<u8>) -> int {
    if line.len() == 0 {
        0
    } else if line[0] == 32 {
        0
    } else if line[0] == 45 {
        1
    } else if line[0] == 43 {
        2
    } else {
        3
    }
}

pub open spec fn tally_ok(content: Seq<Seq<u8>>) -> bool {
    forall|i: int| 0 <= i < content.len() ==> tally_class(#[trigger] content[i]) != 3
}

/// The (old, new) line counts of the content lines: context lines count in
/// both, removed lines in the old count, added lines in the new count.
pub open spec fn tally_spec(content: Seq<Seq<u8>>) -> (int, int)
    decreases content.len(),
{
    if content.len() == 0 {
        (0int, 0int)
    } else {
        let p = tally_spec(content.drop_last());
        let cl = tally_class(content.last());
        (
            p.0 + if cl == 0 || cl == 1 {
                1int
            } else {
                0int
            },
            p.1 + if cl == 0 || cl == 2 {
                1int
            } else {
                0int
            },
        )
    }
}

pub proof fn lemma_tally_bounds(content: Seq<Seq<u8>>)
    ensures
        0 <= tally_spec(content).0 <= content.len(),
        0 <= tally_spec(content).1 <= content.len(),
    decreases content.len(),
{
    if content.len() > 0 {
        lemma_tally_bounds(content.drop_last());
    }
}

/// The content lines of a patch: everything after the two-line preamble
/// and the header line.
pub open spec fn content_of(ls: Seq<(Seq<u8>, int)>) -> Seq<Seq<u8>> {
    ls.skip(3).map_values(|t: (Seq<u8>, int)| t.0)
}

/// What recomputing the counts produces: the input itself when the text
/// has no parsable header after a two-line preamble, a malformed content
/// line, counts that already match, or no content at all; otherwise the
/// text with the header's counts replaced by the tally, the start offsets
/// kept, and everything around the header line kept byte for byte.
pub open spec fn recount_spec(s: Seq<u8>) -> Seq<u8> {
    let ls = lines_spec(s, 0);
    if ls.len() < 3 {
        s
    } else {
        match header_spec(ls[2].0) {
            None => s,
            Some(((a, b), (c, d))) => {
                let content = content_of(ls);
                if !tally_ok(content) {
                    s
                } else {
                    let t = tally_spec(content);
                    if t == (b as int, d as int) {
                        s
                    } else if ls.len() < 4 {
                        s
                    } else {
                        s.take(ls[2].1) + format_header_spec(a, t.0 as u64, c, t.1 as u64)
                            + seq![10u8] + s.skip(ls[3].1)
                    }
                }
            },
        }
    }
}

/// Copy a byte slice into a fresh vector.
fn copy_bytes(s: &[u8]) -> (r: Vec<u8>)
    ensures
        r@ == s@,
{
    let mut v: Vec<u8> = Vec::new();
    v.extend_from_slice(s);
    proof {
        assert(v@ =~= s@);
    }
    v
}

/// Recompute the counts of the block header from the content lines,
/// returning the input unchanged when nothing needs to change or the text
/// is not a well-formed patch.
pub fn rewrite_patch_line_counts(bytes: &[u8]) -> (r: Vec<u8>)
    ensures
        r@ == recount_spec(bytes@),
{
    let ghost lsv = lines_spec(bytes@, 0);
    let ls = lines_with_pos(bytes);
    proof {
        assert(lines_view(ls@) == lsv);
        assert(ls@.len() == lsv.len());
    }
    if ls.len() < 3 {
        return copy_bytes(bytes);
    }
    proof {
        assert(lsv[2] == (ls@[2].0@, ls@[2].1 as int));
    }
    let parsed = patch_block_header(ls[2].0.as_slice());
    let ((a, b), (c, d)) = match parsed {
        Some(x) => x,
        None => {
            return copy_bytes(bytes);
        },
    };
    let ghost content = content_of(lsv);
    proof {
        assert(content.len() == lsv.len() - 3);
    }
    let mut old_count: u64 = 0;
    let mut new_count: u64 = 0;
    let mut i: usize = 3;
    proof {
        lemma_lines_count(bytes@, 0);
        assert(content.take(0) =~= Seq::<Seq<u8>>::empty());
    }
    while i < ls.len()
        invariant
            3 <= i <= ls@.len(),
            ls@.len() == lsv.len(),
            lsv == lines_spec(bytes@, 0),
            lines_view(ls@) == lsv,
            lsv.len() <= bytes@.len(),
            content == content_of(lsv),
            content.len() == lsv.len() - 3,
            tally_ok(content.take(i - 3)),
            old_count == tally_spec(content.take(i - 3)).0,
            new_count == tally_spec(content.take(i - 3)).1,
            old_count <= i,
            new_count <= i,
        decreases ls@.len() - i,
    {
        proof {
            assert(lsv[i as int] == (ls@[i as int].0@, ls@[i as int].1 as int));
            assert(content[i - 3] == lsv[i as int].0);
            let tk = content.take(i - 3 + 1);
            assert(tk.drop_last() =~= content.take(i - 3));
            assert(tk.last() == content[i - 3]);
        }
        let line = &ls[i].0;
        if line.len() == 0 {
            old_count = old_count + 1;
            new_count = new_count + 1;
        } else {
            let b0 = line[0];
            if b0 == 32 {
                old_count = old_count + 1;
                new_count = new_count + 1;
            } else if b0 == 45 {
                old_count = old_count + 1;
            } else if b0 == 43 {
                new_count = new_count + 1;
            } else {
                proof {
                    assert(tally_class(content[i - 3]) == 3);
                    assert(!tally_ok(content));
                }
                return copy_bytes(bytes);
            }
        }
        i += 1;
    }
    proof {
        assert(content.take(i - 3) =~= content);
    }
    if b == old_count && d == new_count {
        return copy_bytes(bytes);
    }
    if ls.len() < 4 {
        return copy_bytes(bytes);
    }
    let hstart = ls[2].1;
    let cstart = ls[3].1;
    proof {
        lemma_lines_pos_bound(bytes@, 0);
        assert(lsv[2] == (ls@[2].0@, ls@[2].1 as int));
        assert(lsv[3] == (ls@[3].0@, ls@[3].1 as int));
        assert(lines_spec(bytes@, 0)[2].1 <= 0 + bytes@.len());
        assert(lines_spec(bytes@, 0)[3].1 <= 0 + bytes@.len());
        assert(hstart as int <= bytes@.len());
        assert(cstart as int <= bytes@.len());
    }
    let mut r: Vec<u8> = Vec::new();
    r.extend_from_slice(&bytes[0..hstart]);
    let header = format_header(a, old_count, c, new_count);
    r.extend_from_slice(header.as_slice());
    r.push(10);
    r.extend_from_slice(&bytes[cstart..bytes.len()]);
    proof {
        assert(r@ =~= bytes@.take(hstart as int) + format_header_spec(a, old_count, c, new_count)
            + seq![10u8] + bytes@.skip(cstart as int));
        assert(r@ =~= recount_spec(bytes@));
    }
    r
}

// ---------------------------------------------------------------------------
// idempotence of the recount
// ---------------------------------------------------------------------------

/// Structure of a rebuilt patch: replacing the header line of a
/// carriage-return-free patch leaves the two preamble lines and the
/// content in place, with the new header line standing alone between them.
proof fn lemma_rebuild_lines(s: Seq<u8>, x: Seq<u8>)
    requires
        crate::parse::no_cr(s),
        lines_spec(s, 0).len() >= 4,
        forall|i: int| 0 <= i < x.len() ==> #[trigger] x[i] != 10 && x[i] != 13,
    ensures
        ({
            let ls = lines_spec(s, 0);
            let hstart = ls[2].1;
            let cstart = ls[3].1;
            let g = s.take(hstart) + x + seq![10u8] + s.skip(cstart);
            lines_spec(g, 0) =~= ls.take(2) + seq![(x, hstart)] + lines_spec(
                s.skip(cstart),
                hstart + x.len() + 1,
            )
        }),
{
    let ls = lines_spec(s, 0);
    crate::parse::lemma_lines_suffix(s, 0, 2);
    crate::parse::lemma_lines_suffix(s, 0, 3);
    let hstart = ls[2].1;
    let cstart = ls[3].1;
    let p = s.take(hstart);
    assert(crate::parse::no_cr(p)) by {
        assert(forall|i: int| 0 <= i < p.len() ==> #[trigger] p[i] == s[i]);
    }
    assert(p.len() > 0 && p.last() == 10) by {
        assert(s[hstart - 1] == 10);
    }
    crate::parse::lemma_lines_concat(p, s.skip(hstart), 0);
    assert(p + s.skip(hstart) =~= s);
    assert(lines_spec(p, 0) + lines_spec(s.skip(hstart), hstart) =~= ls);
    assert(lines_spec(s.skip(hstart), hstart) =~= ls.skip(2));
    assert(lines_spec(p, 0).len() == 2);
    assert(lines_spec(p, 0) =~= ls.take(2)) by {
        assert(forall|i: int|
            0 <= i < 2 ==> #[trigger] lines_spec(p, 0)[i] == (lines_spec(p, 0) + lines_spec(
                s.skip(hstart),
                hstart,
            ))[i]);
    }
    // the replacement header is one terminated line
    let h1 = x + seq![10u8];
    assert(lines_spec(h1, hstart) =~= seq![(x, hstart)]) by {
        assert(h1[x.len() as int] == 10);
        assert(forall|m: int| 0 <= m < x.len() ==> #[trigger] h1[m] == x[m]);
        lemma_find_byte_unique(h1, 10, x.len() as int);
        assert(h1.take(x.len() as int) =~= x);
        assert(strip_cr(h1.take(x.len() as int)) == x) by {
            if x.len() > 0 && x.last() == 13 {
                assert(x[x.len() - 1] != 13);
            }
        }
        assert(h1.skip(x.len() as int + 1) =~= Seq::<u8>::empty());
        assert(lines_spec(Seq::<u8>::empty(), hstart + x.len() + 1)
            =~= Seq::<(Seq<u8>, int)>::empty());
        assert(lines_spec(h1, hstart) =~= seq![(x, hstart)] + lines_spec(
            h1.skip(x.len() as int + 1),
            hstart + x.len() + 1,
        ));
    }
    let p2 = p + h1;
    assert(crate::parse::no_cr(p2)) by {
        assert(forall|i: int|
            0 <= i < p2.len() ==> #[trigger] p2[i] == (if i < p.len() {
                p[i]
            } else {
                h1[i - p.len()]
            }));
    }
    assert(p2.len() > 0 && p2.last() == 10);
    crate::parse::lemma_lines_concat(p, h1, 0);
    assert(lines_spec(p2, 0) =~= ls.take(2) + seq![(x, hstart)]);
    let rsuf = s.skip(cstart);
    crate::parse::lemma_lines_concat(p2, rsuf, 0);
    let g = s.take(hstart) + x + seq![10u8] + rsuf;
    assert(g =~= p2 + rsuf);
    assert(p2.len() == hstart + x.len() + 1);
    assert(lines_spec(g, 0) =~= lines_spec(p2, 0) + lines_spec(rsuf, hstart + x.len() + 1));
}

/// Law: recomputing the counts is idempotent — applied to its own output
/// it yields that output unchanged.  (Stated for carriage-return-free
/// text: the position bookkeeping of the splitter counts `\r\n` as one
/// byte, so positions drift on such input.)
pub proof fn lemma_recount_idempotent(s: Seq<u8>)
    requires
        crate::parse::no_cr(s),
        s.len() <= u64::MAX,
    ensures
        recount_spec(recount_spec(s)) == recount_spec(s),
{
    let ls = lines_spec(s, 0);
    let r = recount_spec(s);
    if r != s {
        // only the rebuilt branch changes the text, so all its guards held
        assert(ls.len() >= 4);
        let ((a, b), (c, d)) = header_spec(ls[2].0)->0;
        let content = content_of(ls);
        let t = tally_spec(content);
        assert(tally_ok(content));
        assert(t != (b as int, d as int));
        lemma_tally_bounds(content);
        crate::parse::lemma_lines_count(s, 0);
        assert(0 <= t.0 <= u64::MAX && 0 <= t.1 <= u64::MAX);
        let t0 = t.0 as u64;
        let t1 = t.1 as u64;
        let x = format_header_spec(a, t0, c, t1);
        lemma_format_header_bytes(a, t0, c, t1);
        lemma_rebuild_lines(s, x);
        let hstart = ls[2].1;
        let cstart = ls[3].1;
        let g = s.take(hstart) + x + seq![10u8] + s.skip(cstart);
        assert(r == g);
        let rsuf = s.skip(cstart);
        let ls2 = lines_spec(g, 0);
        assert(ls2 =~= ls.take(2) + seq![(x, hstart)] + lines_spec(rsuf, hstart + x.len() + 1));
        assert(ls2.len() >= 3);
        assert(ls2[2] == (x, hstart));
        lemma_header_round_trip(a, t0, c, t1);
        assert(header_spec(x) == Some(((a, t0), (c, t1))));
        // the content lines of the rebuilt text are those of the original
        let content2 = content_of(ls2);
        crate::parse::lemma_lines_suffix(s, 0, 3);
        assert(lines_spec(rsuf, cstart) =~= ls.skip(3));
        crate::parse::lemma_lines_base_content(rsuf, hstart + x.len() + 1, cstart);
        assert(content2 =~= content) by {
            assert(ls2.skip(3) =~= lines_spec(rsuf, hstart + x.len() + 1));
            assert(content2.len() == content.len());
            assert forall|i: int| 0 <= i < content2.len() implies #[trigger] content2[i]
                == content[i] by {
                assert(content2[i] == lines_spec(rsuf, hstart + x.len() + 1)[i].0);
                assert(content[i] == ls.skip(3)[i].0);
                assert(lines_spec(rsuf, cstart)[i].0 == ls.skip(3)[i].0);
            }
        }
        assert(tally_ok(content2));
        assert(tally_spec(content2) == t);
        assert(tally_spec(content2) == (t0 as int, t1 as int));
        assert(recount_spec(g) == g);
    }
}

// ---------------------------------------------------------------------------
// shifting the start offsets
// ---------------------------------------------------------------------------

/// The ANSI reset sequence `ESC [ 0 m`.
pub open spec fn ansi_reset() -> Seq<u8> {
    seq![27u8, 91u8, 48u8, 109u8]
}

/// The ANSI color sequence `ESC [ 3 6 m` that the diff formatter puts
/// before a header line.
pub open spec fn ansi_color() -> Seq<u8> {
    seq![27u8, 91u8, 51u8, 54u8, 109u8]
}

/// Strip the color-escape frame `reset color ... reset` from a header line.
pub open spec fn strip_ansi(h: Seq<u8>) -> Option<Seq<u8>> {
    if starts_with(h, ansi_reset()) {
        let h1 = h.skip(4);
        if starts_with(h1, ansi_color()) {
            let h2 = h1.skip(5);
            if ends_with(h2, ansi_reset()) {
                Some(h2.take(h2.len() - 4))
            } else {
                None
            }
        } else {
            None
        }
    } else {
        None
    }
}

/// Add `offset` to both start offsets, failing when the offset or a sum
/// does not fit in a `u64`.
pub open spec fn shift_offsets(a: u64, c: u64, offset: int) -> Option<(u64, u64)> {
    if offset >= 0 {
        if offset <= u64::MAX && a + offset <= u64::MAX && c + offset <= u64::MAX {
            Some(((a + offset) as u64, (c + offset) as u64))
        } else {
            None
        }
    } else {
        if -offset <= u64::MAX && a + offset >= 0 && c + offset >= 0 {
            Some(((a + offset) as u64, (c + offset) as u64))
        } else {
            None
        }
    }
}

/// What shifting the start offsets produces: `None` unless the text has a
/// two-line preamble, a parsable header line (stripped of its color frame
/// when `ansi` is set), at least one further line, and offsets that stay
/// representable; otherwise the text with the header's start offsets
/// shifted, counts kept, and everything around the header kept.
pub open spec fn shift_spec(s: Seq<u8>, offset: int, ansi: bool) -> Option<Seq<u8>> {
    let ls = lines_spec(s, 0);
    if ls.len() < 4 {
        None
    } else {
        let hm = if ansi {
            strip_ansi(ls[2].0)
        } else {
            Some(ls[2].0)
        };
        match hm {
            None => None,
            Some(header) => match header_spec(header) {
                None => None,
                Some(((a, b), (c, d))) => match shift_offsets(a, c, offset) {
                    None => None,
                    Some((a2, c2)) => Some(
                        s.take(ls[2].1) + (if ansi {
                            ansi_reset() + ansi_color()
                        } else {
                            Seq::<u8>::empty()
                        }) + format_header_spec(a2, b, c2, d) + (if ansi {
                            ansi_reset()
                        } else {
                            Seq::<u8>::empty()
                        }) + seq![10u8] + s.skip(ls[3].1),
                    ),
                },
            },
        }
    }
}

/// Shift the block header's start offsets by `offset`, preserving an ANSI
/// color frame around the header when `ansi` is set.  An offset whose
/// magnitude cannot be represented is reported as failure.
pub fn rewrite_patch_line_start(bytes: &[u8], offset: i128, ansi: bool) -> (r: Option<Vec<u8>>)
    ensures
        (r is Some) == (shift_spec(bytes@, offset as int, ansi) is Some),
        r is Some ==> r->0@ == shift_spec(bytes@, offset as int, ansi)->0,
{
    if offset == i128::MIN {
        // the magnitude does not even fit in an i128, let alone a u64
        proof {
            assert(-(i128::MIN as int) > u64::MAX);
        }
        return None;
    }
    let ghost lsv = lines_spec(bytes@, 0);
    let ls = lines_with_pos(bytes);
    proof {
        assert(lines_view(ls@) == lsv);
    }
    if ls.len() < 4 {
        return None;
    }
    proof {
        assert(lsv[2] == (ls@[2].0@, ls@[2].1 as int));
        assert(lsv[3] == (ls@[3].0@, ls@[3].1 as int));
    }
    let hline = ls[2].0.as_slice();
    let header: &[u8] = if ansi {
        // the frame is `reset color ... reset`
        if !(hline.len() >= 13 && hline[0] == 27 && hline[1] == 91 && hline[2] == 48
            && hline[3] == 109 && hline[4] == 27 && hline[5] == 91 && hline[6] == 51
            && hline[7] == 54 && hline[8] == 109) {
            proof {
                if starts_with(hline@, ansi_reset()) && starts_with(hline@.skip(4), ansi_color()) {
                    assert(hline@[0] == 27 && hline@[1] == 91 && hline@[2] == 48 && hline@[3]
                        == 109);
                    assert(hline@[4] == 27 && hline@[5] == 91 && hline@[6] == 51 && hline@[7]
                        == 54 && hline@[8] == 109);
                }
            }
            return None;
        }
        let hn = hline.len();
        if !(hline[hn - 4] == 27 && hline[hn - 3] == 91 && hline[hn - 2] == 48 && hline[hn - 1]
            == 109) {
            proof {
                assert(!ends_with(hline@.skip(4).skip(5), ansi_reset()));
            }
            return None;
        }
        proof {
            assert(starts_with(hline@, ansi_reset())) by {
                assert(hline@.take(4) =~= ansi_reset());
            }
            assert(starts_with(hline@.skip(4), ansi_color())) by {
                assert(hline@.skip(4).take(5) =~= ansi_color());
            }
            assert(ends_with(hline@.skip(4).skip(5), ansi_reset())) by {
                let h2 = hline@.skip(4).skip(5);
                assert(h2.skip(h2.len() - 4) =~= ansi_reset());
            }
        }
        let header = &hline[9..hline.len() - 4];
        proof {
            assert(header@ =~= hline@.skip(4).skip(5).take(hline@.skip(4).skip(5).len() - 4));
            assert(strip_ansi(hline@) == Some(header@));
        }
        header
    } else {
        hline
    };
    let ((a, b), (c, d)) = match patch_block_header(header) {
        Some(x) => x,
        None => {
            return None;
        },
    };
    let (a2, c2) = if offset >= 0 {
        if offset > u64::MAX as i128 {
            return None;
        }
        let off = offset as u64;
        let a2 = match a.checked_add(off) {
            Some(v) => v,
            None => {
                return None;
            },
        };
        let c2 = match c.checked_add(off) {
            Some(v) => v,
            None => {
                return None;
            },
        };
        (a2, c2)
    } else {
        let neg = -offset;
        if neg > u64::MAX as i128 {
            return None;
        }
        let off = neg as u64;
        let a2 = match a.checked_sub(off) {
            Some(v) => v,
            None => {
                return None;
            },
        };
        let c2 = match c.checked_sub(off) {
            Some(v) => v,
            None => {
                return None;
            },
        };
        (a2, c2)
    };
    proof {
        assert(shift_offsets(a, c, offset as int) == Some((a2, c2)));
    }
    let hstart = ls[2].1;
    let cstart = ls[3].1;
    proof {
        lemma_lines_pos_bound(bytes@, 0);
        assert(lines_spec(bytes@, 0)[2].1 <= 0 + bytes@.len());
        assert(lines_spec(bytes@, 0)[3].1 <= 0 + bytes@.len());
        assert(hstart as int <= bytes@.len());
        assert(cstart as int <= bytes@.len());
    }
    let mut r: Vec<u8> = Vec::new();
    r.extend_from_slice(&bytes[0..hstart]);
    if ansi {
        r.push(27);
        r.push(91);
        r.push(48);
        r.push(109);
        r.push(27);
        r.push(91);
        r.push(51);
        r.push(54);
        r.push(109);
    }
    let hdr = format_header(a2, b, c2, d);
    r.extend_from_slice(hdr.as_slice());
    if ansi {
        r.push(27);
        r.push(91);
        r.push(48);
        r.push(109);
    }
    r.push(10);
    r.extend_from_slice(&bytes[cstart..bytes.len()]);
    proof {
        assert(r@ =~= bytes@.take(hstart as int) + (if ansi {
            ansi_reset() + ansi_color()
        } else {
            Seq::<u8>::empty()
        }) + format_header_spec(a2, b, c2, d) + (if ansi {
            ansi_reset()
        } else {
            Seq::<u8>::empty()
        }) + seq![10u8] + bytes@.skip(cstart as int));
    }
    Some(r)
}

/// Law: shifting a patch's start offsets by `+k` and then by `-k` gives
/// back the original bytes exactly.  Stated for carriage-return-free text
/// whose header region is in canonical form — that is, the zero shift
/// reproduces it unchanged (a header such as `@@ -01,2 +3,4 @@`, with a
/// leading zero, is rewritten into canonical form and so is not restored
/// byte for byte).
#[verifier::rlimit(100)]
pub proof fn lemma_shift_round_trip(s: Seq<u8>, k: int, ansi: bool)
    requires
        crate::parse::no_cr(s),
        shift_spec(s, 0, ansi) == Some(s),
        shift_spec(s, k, ansi) is Some,
    ensures
        shift_spec(shift_spec(s, k, ansi)->0, -k, ansi) == Some(s),
{
    let ls = lines_spec(s, 0);
    assert(ls.len() >= 4);
    crate::parse::lemma_lines_suffix(s, 0, 2);
    let hline = ls[2].0;
    let hm = if ansi {
        strip_ansi(hline)
    } else {
        Some(hline)
    };
    let header = hm->0;
    let ((a, b), (c, d)) = header_spec(header)->0;
    let hstart = ls[2].1;
    let cstart = ls[3].1;
    let w1 = if ansi {
        ansi_reset() + ansi_color()
    } else {
        Seq::<u8>::empty()
    };
    let w2 = if ansi {
        ansi_reset()
    } else {
        Seq::<u8>::empty()
    };
    // the canonical-form premise: the zero shift rebuilds `s` from itself
    assert(shift_offsets(a, c, 0) == Some((a, c)));
    assert(s == s.take(hstart) + w1 + format_header_spec(a, b, c, d) + w2 + seq![10u8] + s.skip(
        cstart,
    ));
    let (a2, c2) = shift_offsets(a, c, k)->0;
    assert(a2 == a + k && c2 == c + k);
    let h2 = format_header_spec(a2, b, c2, d);
    let t = shift_spec(s, k, ansi)->0;
    assert(t == s.take(hstart) + w1 + h2 + w2 + seq![10u8] + s.skip(cstart));
    let x = w1 + h2 + w2;
    assert(t =~= s.take(hstart) + x + seq![10u8] + s.skip(cstart));
    lemma_format_header_bytes(a2, b, c2, d);
    assert(forall|i: int| 0 <= i < x.len() ==> #[trigger] x[i] != 10 && x[i] != 13) by {
        assert forall|i: int| 0 <= i < x.len() implies #[trigger] x[i] != 10 && x[i] != 13 by {
            if i < w1.len() {
                assert(x[i] == w1[i]);
            } else if i < w1.len() + h2.len() {
                assert(x[i] == h2[i - w1.len()]);
            } else {
                assert(x[i] == w2[i - w1.len() - h2.len()]);
            }
        }
    }
    lemma_rebuild_lines(s, x);
    let rsuf = s.skip(cstart);
    let ls2 = lines_spec(t, 0);
    assert(ls2 =~= ls.take(2) + seq![(x, hstart)] + lines_spec(rsuf, hstart + x.len() + 1));
    // the fourth line of `s` exists, so the content after the header is
    // non-empty and the rebuilt text again has at least four lines
    crate::parse::lemma_lines_suffix(s, 0, 3);
    assert(lines_spec(rsuf, cstart) =~= ls.skip(3));
    assert(rsuf.len() > 0) by {
        if rsuf.len() == 0 {
            assert(lines_spec(rsuf, cstart).len() == 0);
            assert(ls.skip(3).len() > 0);
        }
    }
    crate::parse::lemma_lines_base_content(rsuf, hstart + x.len() + 1, cstart);
    assert(lines_spec(rsuf, hstart + x.len() + 1).len() >= 1);
    assert(ls2.len() >= 4);
    assert(ls2[2] == (x, hstart));
    // the rebuilt header line strips back to the shifted header
    let hm2 = if ansi {
        strip_ansi(x)
    } else {
        Some(x)
    };
    assert(hm2 == Some(h2)) by {
        if ansi {
            assert(starts_with(x, ansi_reset())) by {
                assert(x.take(4) =~= ansi_reset());
            }
            assert(starts_with(x.skip(4), ansi_color())) by {
                assert(x.skip(4).take(5) =~= ansi_color());
            }
            assert(ends_with(x.skip(4).skip(5), ansi_reset())) by {
                let y = x.skip(4).skip(5);
                assert(y.skip(y.len() - 4) =~= ansi_reset());
            }
            let y = x.skip(4).skip(5);
            assert(y.take(y.len() - 4) =~= h2);
        } else {
            assert(x =~= h2);
        }
    }
    lemma_header_round_trip(a2, b, c2, d);
    assert(header_spec(h2) == Some(((a2, b), (c2, d))));
    assert(shift_offsets(a2, c2, -k) == Some((a, c)));
    // the positions of the rebuilt text
    assert(ls2[3].1 == hstart + x.len() + 1) by {
        let base2 = hstart + x.len() + 1;
        assert(lines_spec(rsuf, base2)[0].1 == base2) by {
            crate::parse::lemma_find_byte(rsuf, 10);
            let kk = find_byte_spec(rsuf, 10);
            if kk < rsuf.len() {
                assert(lines_spec(rsuf, base2)[0] == (strip_cr(rsuf.take(kk)), base2));
            }
        }
        assert(ls2[3] == lines_spec(rsuf, hstart + x.len() + 1)[0]);
    }
    let back = shift_spec(t, -k, ansi)->0;
    assert(back == t.take(ls2[2].1) + w1 + format_header_spec(a, b, c, d) + w2 + seq![10u8]
        + t.skip(ls2[3].1));
    assert(t.take(hstart) =~= s.take(hstart));
    assert(t.skip(hstart + x.len() + 1) =~= rsuf);
    assert(back =~= s.take(hstart) + w1 + format_header_spec(a, b, c, d) + w2 + seq![10u8]
        + s.skip(cstart));
    assert(back == s);
}

} // verus!
