//! Byte-level parsing: line splitting, decimal numbers, and the
//! `@@ -a,b +c,d @@` unified-diff block header.

use vstd::arithmetic::div_mod::lemma_fundamental_div_mod;
use vstd::prelude::*;

verus! {

// ---------------------------------------------------------------------------
// decimal digits
// ---------------------------------------------------------------------------

pub open spec fn is_digit(b: u8) -> bool {
    48 <= b <= 57
}

pub open spec fn all_digits(s: Seq<u8>) -> bool {
    forall|i: int| 0 <= i < s.len() ==> is_digit(#[trigger] s[i])
}

/// The value of a digit string, most significant digit first.
pub open spec fn digits_val(s: Seq<u8>) -> int
    decreases s.len(),
{
    if s.len() == 0 {
        0
    } else {
        digits_val(s.drop_last()) * 10 + (s.last() - 48)
    }
}

/// The canonical decimal form of a non-negative number.
pub open spec fn dec_spec(n: int) -> Seq<u8>
    recommends
        n >= 0,
    decreases n,
{
    if n < 10 {
        seq![(48 + n) as u8]
    } else {
        dec_spec(n / 10).push((48 + n % 10) as u8)
    }
}

pub proof fn lemma_dec_spec_digits(n: int)
    requires
        n >= 0,
    ensures
        all_digits(dec_spec(n)),
        dec_spec(n).len() >= 1,
        digits_val(dec_spec(n)) == n,
    decreases n,
{
    if n < 10 {
        assert(dec_spec(n) =~= seq![(48 + n) as u8]);
        assert(dec_spec(n).drop_last() =~= Seq::<u8>::empty());
        assert(digits_val(Seq::<u8>::empty()) == 0);
        assert(dec_spec(n).last() == (48 + n) as u8);
        assert(digits_val(dec_spec(n)) == 0 * 10 + ((48 + n) as u8 - 48));
    } else {
        lemma_dec_spec_digits(n / 10);
        let d = dec_spec(n);
        assert(d == dec_spec(n / 10).push((48 + n % 10) as u8));
        assert(d.drop_last() =~= dec_spec(n / 10));
        assert(d.last() == (48 + n % 10) as u8);
        assert(digits_val(d) == (n / 10) * 10 + n % 10);
        assert((n / 10) * 10 + n % 10 == n) by {
            lemma_fundamental_div_mod(n, 10);
        }
        assert forall|i: int| 0 <= i < d.len() implies is_digit(#[trigger] d[i]) by {
            if i < d.len() - 1 {
                assert(d[i] == dec_spec(n / 10)[i]);
            }
        }
    }
}

/// Appending further digits can only grow the value.
pub proof fn lemma_digits_val_prefix(s: Seq<u8>, k: int)
    requires
        all_digits(s),
        0 <= k <= s.len(),
    ensures
        digits_val(s) >= digits_val(s.take(k)),
        digits_val(s.take(k)) >= 0,
    decreases s.len() - k,
{
    if k == s.len() {
        assert(s.take(k) =~= s);
        lemma_digits_val_nonneg(s);
    } else {
        lemma_digits_val_prefix(s, k + 1);
        let t = s.take(k + 1);
        assert(t.drop_last() =~= s.take(k));
        assert(t.last() == s[k]);
        lemma_digits_val_nonneg(s.take(k));
        assert(digits_val(t) == digits_val(s.take(k)) * 10 + (s[k] - 48));
        assert(digits_val(s.take(k)) * 10 >= digits_val(s.take(k))) by (nonlinear_arith)
            requires digits_val(s.take(k)) >= 0;
    }
}

pub proof fn lemma_digits_val_nonneg(s: Seq<u8>)
    requires
        all_digits(s),
    ensures
        digits_val(s) >= 0,
    decreases s.len(),
{
    if s.len() > 0 {
        assert(all_digits(s.drop_last())) by {
            assert(forall|i: int|
                0 <= i < s.len() - 1 ==> s.drop_last()[i] == #[trigger] s[i]);
        }
        lemma_digits_val_nonneg(s.drop_last());
        assert(digits_val(s.drop_last()) * 10 >= 0) by (nonlinear_arith)
            requires digits_val(s.drop_last()) >= 0;
    }
}

/// What `str::parse::<u64>` accepts: an optional leading `+`, then one or
/// more decimal digits whose value fits in a `u64`.
pub open spec fn u64_from_dec_spec(s: Seq<u8>) -> Option<u64> {
    let t = if s.len() > 0 && s[0] == 43 {
        s.drop_first()
    } else {
        s
    };
    if t.len() > 0 && all_digits(t) && digits_val(t) <= u64::MAX {
        Some(digits_val(t) as u64)
    } else {
        None
    }
}

/// Parsing the canonical decimal form gives back the number.
pub proof fn lemma_dec_round_trip(n: u64)
    ensures
        u64_from_dec_spec(dec_spec(n as int)) == Some(n),
{
    lemma_dec_spec_digits(n as int);
    let d = dec_spec(n as int);
    assert(is_digit(d[0]));
    assert(d[0] != 43);
}

/// Parse a string of decimal digits into a `u64`, rejecting empty input,
/// non-digits, and values that do not fit.
fn parse_digits(s: &[u8]) -> (r: Option<u64>)
    ensures
        r == (if s@.len() > 0 && all_digits(s@) && digits_val(s@) <= u64::MAX {
            Some(digits_val(s@) as u64)
        } else {
            None::<u64>
        }),
{
    if s.len() == 0 {
        return None;
    }
    let mut val: u64 = 0;
    let mut i: usize = 0;
    while i < s.len()
        invariant
            0 <= i <= s@.len(),
            all_digits(s@.take(i as int)),
            val == digits_val(s@.take(i as int)),
        decreases s@.len() - i,
    {
        let b = s[i];
        proof {
            let tk = s@.take(i + 1);
            assert(tk.drop_last() =~= s@.take(i as int));
            assert(tk.last() == s@[i as int]);
        }
        if b < 48 || b > 57 {
            proof {
                assert(!is_digit(s@[i as int]));
            }
            return None;
        }
        let d = b - 48;
        let next = match val.checked_mul(10) {
            Some(v) => v.checked_add(d as u64),
            None => None,
        };
        match next {
            Some(v) => {
                val = v;
            },
            None => {
                proof {
                    // the value seen so far already exceeds u64::MAX, so the
                    // whole digit string does too, if it is all digits at all
                    assert(digits_val(s@.take(i + 1)) > u64::MAX);
                    if all_digits(s@) && digits_val(s@) <= u64::MAX {
                        lemma_digits_val_prefix(s@, i + 1);
                    }
                }
                return None;
            },
        }
        i += 1;
    }
    proof {
        assert(s@.take(i as int) =~= s@);
    }
    Some(val)
}

/// Parse a decimal `u64`, accepting an optional leading `+`, exactly as
/// `str::parse::<u64>` does on ASCII input.
pub fn bytes_as_u64(bytes: &[u8]) -> (r: Option<u64>)
    ensures
        r == u64_from_dec_spec(bytes@),
{
    let digits = if bytes.len() > 0 && bytes[0] == 43 {
        &bytes[1..bytes.len()]
    } else {
        &bytes[0..bytes.len()]
    };
    proof {
        if bytes@.len() > 0 && bytes@[0] == 43 {
            assert(digits@ =~= bytes@.drop_first());
        } else {
            assert(digits@ =~= bytes@);
        }
    }
    parse_digits(digits)
}

// ---------------------------------------------------------------------------
// finding a byte
// ---------------------------------------------------------------------------

/// Index of the first occurrence of `b` in `s`, or `s.len()` if absent.
pub open spec fn find_byte_spec(s: Seq<u8>, b: u8) -> int
    decreases s.len(),
{
    if s.len() == 0 {
        0
    } else if s[0] == b {
        0
    } else {
        1 + find_byte_spec(s.skip(1), b)
    }
}

pub proof fn lemma_find_byte(s: Seq<u8>, b: u8)
    ensures
        0 <= find_byte_spec(s, b) <= s.len(),
        find_byte_spec(s, b) < s.len() ==> s[find_byte_spec(s, b)] == b,
        forall|m: int| 0 <= m < find_byte_spec(s, b) ==> s[m] != b,
    decreases s.len(),
{
    if s.len() > 0 && s[0] != b {
        lemma_find_byte(s.skip(1), b);
        let f = find_byte_spec(s, b);
        assert(forall|m: int| 1 <= m < f ==> #[trigger] s[m] == s.skip(1)[m - 1]);
    }
}

/// Find the first occurrence of `b` in `s`.
pub fn find_byte(s: &[u8], b: u8) -> (r: usize)
    ensures
        r == find_byte_spec(s@, b),
{
    proof {
        lemma_find_byte(s@, b);
    }
    let mut i: usize = 0;
    while i < s.len()
        invariant
            0 <= i <= s@.len(),
            forall|m: int| 0 <= m < i ==> s@[m] != b,
            0 <= find_byte_spec(s@, b) <= s@.len(),
            find_byte_spec(s@, b) < s@.len() ==> s@[find_byte_spec(s@, b)] == b,
            forall|m: int| 0 <= m < find_byte_spec(s@, b) ==> s@[m] != b,
        decreases s@.len() - i,
    {
        if s[i] == b {
            proof {
                if find_byte_spec(s@, b) < i {
                    assert(s@[find_byte_spec(s@, b)] == b);
                }
            }
            return i;
        }
        i += 1;
    }
    i
}

// ---------------------------------------------------------------------------
// line splitting
// ---------------------------------------------------------------------------

/// Strip one line terminator's carriage return: the raw line content before
/// a `\n`, with a single trailing `\r` removed if present.
pub open spec fn strip_cr(raw: Seq<u8>) -> Seq<u8> {
    if raw.len() > 0 && raw.last() == 13 {
        raw.drop_last()
    } else {
        raw
    }
}

/// The lines of `s`, split on `\n` with `\r\n` terminators stripped from the
/// content (a final line without terminator keeps any trailing `\r`), each
/// paired with a running position counter that advances by the stripped
/// length plus one per line.
pub open spec fn lines_spec(s: Seq<u8>, base: int) -> Seq<(Seq<u8>, int)>
    decreases s.len(),
{
    if s.len() == 0 {
        Seq::empty()
    } else {
        let k0 = find_byte_spec(s, 10);
        let k = if 0 <= k0 < s.len() {
            k0
        } else {
            s.len() as int
        };
        if k == s.len() {
            seq![(s, base)]
        } else {
            let line = strip_cr(s.take(k));
            seq![(line, base)] + lines_spec(s.skip(k + 1), base + line.len() + 1)
        }
    }
}

pub open spec fn lines_view(v: Seq<(Vec<u8>, usize)>) -> Seq<(Seq<u8>, int)> {
    v.map_values(|t: (Vec<u8>, usize)| (t.0@, t.1 as int))
}

/// Split into lines, pairing each line's content (without its terminator)
/// with a running position counter.
pub fn lines_with_pos(bytes: &[u8]) -> (r: Vec<(Vec<u8>, usize)>)
    ensures
        lines_view(r@) == lines_spec(bytes@, 0),
{
    let mut r: Vec<(Vec<u8>, usize)> = Vec::new();
    let mut pos: usize = 0;
    let mut base: usize = 0;
    proof {
        assert(bytes@.skip(0) =~= bytes@);
        assert(lines_view(r@) + lines_spec(bytes@.skip(0), 0) =~= lines_spec(bytes@, 0));
    }
    while pos < bytes.len()
        invariant
            pos <= bytes@.len(),
            base <= pos,
            lines_view(r@) + lines_spec(bytes@.skip(pos as int), base as int) =~= lines_spec(
                bytes@,
                0,
            ),
        decreases bytes@.len() - pos,
    {
        let ghost rest = bytes@.skip(pos as int);
        let rest_slice = &bytes[pos..bytes.len()];
        proof {
            assert(rest_slice@ =~= rest);
            lemma_find_byte(rest, 10);
        }
        let k = find_byte(rest_slice, 10);
        if k == rest_slice.len() {
            // final line without terminator
            let mut line: Vec<u8> = Vec::new();
            line.extend_from_slice(rest_slice);
            proof {
                assert(line@ =~= rest);
                assert(lines_spec(rest, base as int) =~= seq![(rest, base as int)]);
                assert(lines_view(r@.push((line, base))) =~= lines_view(r@).push(
                    (line@, base as int),
                ));
                assert(lines_view(r@).push((line@, base as int)) + lines_spec(
                    Seq::<u8>::empty(),
                    0,
                ) =~= lines_view(r@) + lines_spec(rest, base as int));
            }
            r.push((line, base));
            pos = bytes.len();
            proof {
                assert(bytes@.skip(pos as int) =~= Seq::<u8>::empty());
                assert(lines_view(r@) + lines_spec(bytes@.skip(pos as int), base as int)
                    =~= lines_view(r@));
            }
        } else {
            // a terminated line: strip the `\n`, and one `\r` before it
            let mut end = pos + k;
            if k > 0 && bytes[pos + k - 1] == 13 {
                end = pos + k - 1;
            }
            let mut line: Vec<u8> = Vec::new();
            line.extend_from_slice(&bytes[pos..end]);
            let ghost stripped = strip_cr(rest.take(k as int));
            proof {
                assert(rest.take(k as int) =~= bytes@.subrange(pos as int, pos + k));
                if k > 0 && bytes@[pos + k - 1] == 13 {
                    assert(rest.take(k as int).last() == 13);
                    assert(stripped =~= bytes@.subrange(pos as int, end as int));
                } else {
                    assert(stripped =~= bytes@.subrange(pos as int, end as int));
                }
                assert(line@ =~= stripped);
            }
            let new_base = base + (end - pos) + 1;
            proof {
                let tail = lines_spec(rest.skip(k + 1), new_base as int);
                assert(lines_spec(rest, base as int) =~= seq![(stripped, base as int)] + tail);
                assert(lines_view(r@.push((line, base))) =~= lines_view(r@).push(
                    (stripped, base as int),
                ));
                assert(rest.skip(k + 1) =~= bytes@.skip(pos + k + 1));
                assert((lines_view(r@).push((stripped, base as int))) + tail =~= lines_view(r@)
                    + lines_spec(rest, base as int));
            }
            r.push((line, base));
            base = new_base;
            pos = pos + k + 1;
        }
    }
    proof {
        assert(bytes@.skip(pos as int) =~= Seq::<u8>::empty());
        assert(lines_view(r@) =~= lines_spec(bytes@, 0));
    }
    r
}

// ---------------------------------------------------------------------------
// structure of the line splitting
// ---------------------------------------------------------------------------

pub open spec fn no_cr(s: Seq<u8>) -> bool {
    forall|i: int| 0 <= i < s.len() ==> #[trigger] s[i] != 13
}

/// There are never more lines than bytes.
pub proof fn lemma_lines_count(s: Seq<u8>, base: int)
    ensures
        lines_spec(s, base).len() <= s.len(),
    decreases s.len(),
{
    if s.len() > 0 {
        lemma_find_byte(s, 10);
        let k = find_byte_spec(s, 10);
        if k < s.len() {
            lemma_lines_count(s.skip(k + 1), base + strip_cr(s.take(k)).len() + 1);
        }
    }
}

/// Every recorded position lies between the base and the base plus the
/// total length, and positions advance by at least one per line.
pub proof fn lemma_lines_pos_bound(s: Seq<u8>, base: int)
    ensures
        forall|i: int|
            0 <= i < lines_spec(s, base).len() ==> base + i <= #[trigger] lines_spec(
                s,
                base,
            )[i].1 <= base + s.len(),
    decreases s.len(),
{
    if s.len() > 0 {
        lemma_find_byte(s, 10);
        let k = find_byte_spec(s, 10);
        if k < s.len() {
            let line = strip_cr(s.take(k));
            let rest = s.skip(k + 1);
            lemma_lines_pos_bound(rest, base + line.len() + 1);
            let ls = lines_spec(s, base);
            assert forall|i: int| 0 <= i < ls.len() implies base + i <= #[trigger] ls[i].1
                <= base + s.len() by {
                if i > 0 {
                    assert(ls[i] == lines_spec(rest, base + line.len() + 1)[i - 1]);
                    assert(line.len() <= k);
                }
            }
        }
    }
}

/// Splitting a text whose first part ends with a newline splits each part
/// on its own, with the positions of the second part shifted by the length
/// of the first (which is carriage-return-free, so positions stay exact).
pub proof fn lemma_lines_concat(p: Seq<u8>, q: Seq<u8>, base: int)
    requires
        no_cr(p),
        p.len() > 0 ==> p.last() == 10,
    ensures
        lines_spec(p + q, base) =~= lines_spec(p, base) + lines_spec(q, base + p.len()),
    decreases p.len(),
{
    if p.len() == 0 {
        assert(p + q =~= q);
        assert(lines_spec(p, base) =~= Seq::<(Seq<u8>, int)>::empty());
    } else {
        lemma_find_byte(p, 10);
        let kp = find_byte_spec(p, 10);
        assert(kp < p.len()) by {
            assert(p[p.len() - 1] == 10);
            if kp == p.len() {
                assert(p[p.len() - 1] != 10);
            }
        }
        let s = p + q;
        lemma_find_byte(s, 10);
        assert(s[kp] == p[kp] == 10);
        assert forall|m: int| 0 <= m < kp implies s[m] != 10 by {
            assert(s[m] == p[m]);
        }
        // the first line of the combined text is the first line of `p`
        assert(find_byte_spec(s, 10) == kp) by {
            let f = find_byte_spec(s, 10);
            if f < kp {
                assert(s[f] == 10);
            }
            if f > kp {
                assert(s[kp] != 10);
            }
        }
        let line = strip_cr(s.take(kp));
        assert(s.take(kp) =~= p.take(kp));
        assert(line == strip_cr(p.take(kp)));
        assert(line.len() == kp) by {
            if kp > 0 && p.take(kp).last() == 13 {
                assert(p[kp - 1] == 13);
            }
        }
        let p2 = p.skip(kp + 1);
        assert(s.skip(kp + 1) =~= p2 + q);
        assert(no_cr(p2)) by {
            assert(forall|i: int| 0 <= i < p2.len() ==> #[trigger] p2[i] == p[i + kp + 1]);
        }
        assert(p2.len() > 0 ==> p2.last() == 10) by {
            if p2.len() > 0 {
                assert(p2.last() == p.last());
            }
        }
        lemma_lines_concat(p2, q, base + kp + 1);
        assert(lines_spec(s, base) =~= seq![(line, base)] + lines_spec(p2 + q, base + kp + 1));
        assert(lines_spec(p, base) =~= seq![(line, base)] + lines_spec(p2, base + kp + 1));
        assert(base + kp + 1 + p2.len() == base + p.len());
    }
}

/// The recorded positions depend on the base, but the line contents do not.
pub proof fn lemma_lines_base_content(q: Seq<u8>, b1: int, b2: int)
    ensures
        lines_spec(q, b1).len() == lines_spec(q, b2).len(),
        forall|i: int|
            0 <= i < lines_spec(q, b1).len() ==> #[trigger] lines_spec(q, b1)[i].0 == lines_spec(
                q,
                b2,
            )[i].0,
    decreases q.len(),
{
    if q.len() > 0 {
        lemma_find_byte(q, 10);
        let k = find_byte_spec(q, 10);
        if k < q.len() {
            let line = strip_cr(q.take(k));
            lemma_lines_base_content(q.skip(k + 1), b1 + line.len() + 1, b2 + line.len() + 1);
        }
    }
}

/// In carriage-return-free text the recorded positions are the true byte
/// offsets: the suffix of the text starting at line `i`'s position splits
/// into exactly the lines from `i` on.
pub proof fn lemma_lines_suffix(s: Seq<u8>, base: int, i: int)
    requires
        no_cr(s),
        0 <= i < lines_spec(s, base).len(),
    ensures
        ({
            let o = lines_spec(s, base)[i].1 - base;
            &&& 0 <= o <= s.len()
            &&& (i == 0 ==> o == 0)
            &&& (i > 0 ==> 0 < o && s[o - 1] == 10)
            &&& lines_spec(s.skip(o), base + o) =~= lines_spec(s, base).skip(i)
        }),
    decreases i,
{
    let ls = lines_spec(s, base);
    lemma_find_byte(s, 10);
    let k = find_byte_spec(s, 10);
    if i == 0 {
        assert(ls[0].1 == base) by {
            if k < s.len() {
                assert(ls[0] == (strip_cr(s.take(k)), base));
            }
        }
        assert(s.skip(0) =~= s);
        assert(lines_spec(s.skip(0), base) =~= ls.skip(0));
    } else {
        // more than one line, so the first line is terminated
        assert(k < s.len()) by {
            if k == s.len() {
                assert(ls.len() == 1);
            }
        }
        let line = strip_cr(s.take(k));
        assert(line.len() == k) by {
            if k > 0 && s.take(k).last() == 13 {
                assert(s[k - 1] == 13);
            }
        }
        let rest = s.skip(k + 1);
        assert(no_cr(rest)) by {
            assert(forall|j: int| 0 <= j < rest.len() ==> #[trigger] rest[j] == s[j + k + 1]);
        }
        assert(ls =~= seq![(line, base)] + lines_spec(rest, base + k + 1));
        lemma_lines_suffix(rest, base + k + 1, i - 1);
        let o1 = lines_spec(rest, base + k + 1)[i - 1].1 - (base + k + 1);
        let o = k + 1 + o1;
        assert(ls[i].1 - base == o);
        assert(s.skip(o) =~= rest.skip(o1));
        if o1 == 0 {
            assert(s[o - 1] == 10);
        } else {
            assert(rest[o1 - 1] == 10);
            assert(s[o - 1] == rest[o1 - 1]);
        }
        assert(lines_spec(s.skip(o), base + o) =~= lines_spec(rest, base + k + 1).skip(i - 1));
        assert(ls.skip(i) =~= lines_spec(rest, base + k + 1).skip(i - 1));
    }
}

// ---------------------------------------------------------------------------
// the block header
// ---------------------------------------------------------------------------

pub open spec fn starts_with(s: Seq<u8>, p: Seq<u8>) -> bool {
    s.len() >= p.len() && s.take(p.len() as int) =~= p
}

pub open spec fn ends_with(s: Seq<u8>, p: Seq<u8>) -> bool {
    s.len() >= p.len() && s.skip(s.len() - p.len()) =~= p
}

/// `"@@ "`
pub open spec fn hdr_prefix() -> Seq<u8> {
    seq![64u8, 64u8, 32u8]
}

/// `" @@"`
pub open spec fn hdr_suffix() -> Seq<u8> {
    seq![32u8, 64u8, 64u8]
}

/// What `patch_block_header` accepts: `@@ -A,B +C,D @@` where each letter
/// stands for a decimal `u64`, located by stripping the fixed frame, then
/// splitting at the first space and the first comma of each half.
pub open spec fn header_spec(s: Seq<u8>) -> Option<((u64, u64), (u64, u64))> {
    if s.len() >= 6 && starts_with(s, hdr_prefix()) && ends_with(s, hdr_suffix()) {
        let h = s.subrange(3, s.len() - 3);
        let sp = find_byte_spec(h, 32);
        if sp == h.len() {
            None
        } else {
            let r1 = h.take(sp);
            let r2 = h.skip(sp);
            if r1.len() >= 1 && r1[0] == 45 && r2.len() >= 2 && r2[0] == 32 && r2[1] == 43 {
                let a1 = r1.skip(1);
                let a2 = r2.skip(2);
                let c1 = find_byte_spec(a1, 44);
                let c2 = find_byte_spec(a2, 44);
                if c1 < a1.len() && c2 < a2.len() {
                    let pa = u64_from_dec_spec(a1.take(c1));
                    let pb = u64_from_dec_spec(a1.skip(c1 + 1));
                    let pc = u64_from_dec_spec(a2.take(c2));
                    let pd = u64_from_dec_spec(a2.skip(c2 + 1));
                    if pa is Some && pb is Some && pc is Some && pd is Some {
                        Some(((pa->0, pb->0), (pc->0, pd->0)))
                    } else {
                        None
                    }
                } else {
                    None
                }
            } else {
                None
            }
        }
    } else {
        None
    }
}

/// Parse a unified-diff block header line `@@ -A,B +C,D @@`.
pub fn patch_block_header(bytes: &[u8]) -> (r: Option<((u64, u64), (u64, u64))>)
    ensures
        r == header_spec(bytes@),
{
    if bytes.len() < 6 {
        return None;
    }
    // the "@@ " prefix and " @@" suffix
    if !(bytes[0] == 64 && bytes[1] == 64 && bytes[2] == 32) {
        proof {
            assert(!starts_with(bytes@, hdr_prefix()));
        }
        return None;
    }
    let n = bytes.len();
    if !(bytes[n - 3] == 32 && bytes[n - 2] == 64 && bytes[n - 1] == 64) {
        proof {
            assert(!ends_with(bytes@, hdr_suffix()));
        }
        return None;
    }
    proof {
        assert(starts_with(bytes@, hdr_prefix()));
        assert(ends_with(bytes@, hdr_suffix()));
    }
    let h = &bytes[3..n - 3];
    let ghost hs = bytes@.subrange(3, bytes@.len() - 3);
    proof {
        assert(h@ =~= hs);
        lemma_find_byte(hs, 32);
    }
    let sp = find_byte(h, 32);
    if sp == h.len() {
        return None;
    }
    let r1 = &h[0..sp];
    let r2 = &h[sp..h.len()];
    proof {
        assert(r1@ =~= hs.take(sp as int));
        assert(r2@ =~= hs.skip(sp as int));
    }
    if !(r1.len() >= 1 && r1[0] == 45 && r2.len() >= 2 && r2[0] == 32 && r2[1] == 43) {
        return None;
    }
    let a1 = &r1[1..r1.len()];
    let a2 = &r2[2..r2.len()];
    proof {
        assert(a1@ =~= hs.take(sp as int).skip(1));
        assert(a2@ =~= hs.skip(sp as int).skip(2));
        lemma_find_byte(a1@, 44);
        lemma_find_byte(a2@, 44);
    }
    let c1 = find_byte(a1, 44);
    let c2 = find_byte(a2, 44);
    if !(c1 < a1.len() && c2 < a2.len()) {
        return None;
    }
    let x1 = &a1[0..c1];
    let y1 = &a1[c1 + 1..a1.len()];
    let x2 = &a2[0..c2];
    let y2 = &a2[c2 + 1..a2.len()];
    proof {
        assert(x1@ =~= a1@.take(c1 as int));
        assert(y1@ =~= a1@.skip(c1 + 1));
        assert(x2@ =~= a2@.take(c2 as int));
        assert(y2@ =~= a2@.skip(c2 + 1));
    }
    let pa = bytes_as_u64(x1);
    let pb = bytes_as_u64(y1);
    let pc = bytes_as_u64(x2);
    let pd = bytes_as_u64(y2);
    match (pa, pb, pc, pd) {
        (Some(va), Some(vb), Some(vc), Some(vd)) => Some(((va, vb), (vc, vd))),
        _ => None,
    }
}

} // verus!
