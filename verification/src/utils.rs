//! The QUBO file format: one matrix row per line, entries separated by white space; lines
//! that are empty, hold a single entry, or start with the entry `c` (comments) are skipped.
use vstd::prelude::*;

verus! {

/// The length in bytes of the white-space character (Unicode `White_Space`, in UTF-8) that
/// starts at place `i` of `s[..e]`, or `0` where none does: the ASCII ones (tab, line feed,
/// vertical tab, form feed, carriage return, space), U+0085, U+00A0, U+1680, U+2000 to
/// U+200A, U+2028, U+2029, U+202F, U+205F and U+3000.
pub open spec fn ws_len(s: Seq<u8>, i: int, e: int) -> int {
    if i < 0 || i >= e {
        0
    } else if s[i] == 32 || (9 <= s[i] && s[i] <= 13) {
        1
    } else if i + 1 < e && s[i] == 0xC2 && (s[i + 1] == 0x85 || s[i + 1] == 0xA0) {
        2
    } else if i + 2 < e && ((s[i] == 0xE1 && s[i + 1] == 0x9A && s[i + 2] == 0x80)
        || (s[i] == 0xE2 && s[i + 1] == 0x80 && ((0x80 <= s[i + 2] && s[i + 2] <= 0x8A) || s[i + 2] == 0xA8
            || s[i + 2] == 0xA9 || s[i + 2] == 0xAF))
        || (s[i] == 0xE2 && s[i + 1] == 0x81 && s[i + 2] == 0x9F)
        || (s[i] == 0xE3 && s[i + 1] == 0x80 && s[i + 2] == 0x80)) {
        3
    } else {
        0
    }
}

/// The first place from `i` on (below `e`) where a white-space character starts, or `e`.
pub open spec fn tok_end(s: Seq<u8>, i: int, e: int) -> int
    decreases e - i,
{
    if i >= e || ws_len(s, i, e) > 0 { i } else { tok_end(s, i + 1, e) }
}

/// The spans `(start, end)` of the entries of `s[i..e]`: maximal runs without white space.
pub open spec fn tokens(s: Seq<u8>, i: int, e: int) -> Seq<(int, int)>
    decreases e - i,
{
    if i >= e {
        seq![]
    } else if ws_len(s, i, e) > 0 {
        tokens(s, i + ws_len(s, i, e), e)
    } else {
        let k = tok_end(s, i + 1, e);
        if k <= i || k > e { seq![] } else { seq![(i, k)] + tokens(s, k, e) }
    }
}

/// The first place from `i` on that holds a line feed, or the length.
pub open spec fn line_end(s: Seq<u8>, i: int) -> int
    decreases s.len() - i,
{
    if i >= s.len() || s[i] == 10 { i } else { line_end(s, i + 1) }
}

/// The value of a run of decimal digits.
pub open spec fn dec_value(d: Seq<u8>) -> int
    decreases d.len(),
{
    if d.len() == 0 { 0 } else { dec_value(d.drop_last()) * 10 + (d.last() - 48) }
}

/// Every byte is a decimal digit.
pub open spec fn all_digits(d: Seq<u8>) -> bool {
    forall|i: int| 0 <= i < d.len() ==> 48 <= #[trigger] d[i] <= 57
}

/// An entry read as an `i32` as `str::parse` reads it: an optional `+` or `-`, then at least
/// one decimal digit, and a value within `i32`; `None` otherwise.
pub open spec fn parse_int(t: Seq<u8>) -> Option<i32> {
    let neg = t.len() > 0 && t[0] == 45;
    let signed = t.len() > 0 && (t[0] == 45 || t[0] == 43);
    let d = if signed { t.drop_first() } else { t };
    let v = if neg { -dec_value(d) } else { dec_value(d) };
    if d.len() >= 1 && all_digits(d) && i32::MIN <= v <= i32::MAX {
        Some(v as i32)
    } else {
        None
    }
}

/// The entries of a list of spans, each read as an `i32`; `None` if one cannot be.
pub open spec fn parse_row(s: Seq<u8>, sp: Seq<(int, int)>) -> Option<Seq<i32>>
    decreases sp.len(),
{
    if sp.len() == 0 {
        Some(seq![])
    } else {
        match (parse_row(s, sp.drop_last()), parse_int(s.subrange(sp.last().0, sp.last().1))) {
            (Some(r), Some(v)) => Some(r.push(v)),
            _ => None,
        }
    }
}

/// A line is a row of the matrix when it has at least two entries and the first is not `c`.
pub open spec fn is_row(s: Seq<u8>, sp: Seq<(int, int)>) -> bool {
    sp.len() >= 2 && !(sp[0].1 == sp[0].0 + 1 && s[sp[0].0] == 99)
}

/// The rows of the lines from place `i` on; `None` where an entry of a row is no `i32`.
pub open spec fn parse_lines(s: Seq<u8>, i: int) -> Option<Seq<Seq<i32>>>
    decreases s.len() - i,
{
    if i < 0 || i >= s.len() {
        Some(seq![])
    } else {
        let e = line_end(s, i);
        let sp = tokens(s, i, e);
        let rest = if e < i || e >= s.len() { Some(seq![]) } else { parse_lines(s, e + 1) };
        if !is_row(s, sp) {
            rest
        } else {
            match (parse_row(s, sp), rest) {
                (Some(r), Some(rs)) => Some(seq![r] + rs),
                _ => None,
            }
        }
    }
}

proof fn lemma_tok_end(s: Seq<u8>, i: int, e: int)
    requires
        0 <= i <= e <= s.len(),
    ensures
        i <= tok_end(s, i, e) <= e,
        tok_end(s, i, e) < e ==> ws_len(s, tok_end(s, i, e), e) > 0,
    decreases e - i,
{
    if i < e && ws_len(s, i, e) == 0 {
        lemma_tok_end(s, i + 1, e);
    }
}

proof fn lemma_line_end(s: Seq<u8>, i: int)
    requires
        0 <= i <= s.len(),
    ensures
        i <= line_end(s, i) <= s.len(),
        line_end(s, i) < s.len() ==> s[line_end(s, i)] == 10,
    decreases s.len() - i,
{
    if i < s.len() && s[i] != 10 {
        lemma_line_end(s, i + 1);
    }
}

proof fn lemma_tokens_bounds(s: Seq<u8>, i: int, e: int)
    requires
        0 <= i <= e <= s.len(),
    ensures
        forall|k: int| 0 <= k < tokens(s, i, e).len() ==> i <= (#[trigger] tokens(s, i, e)[k]).0 < tokens(s, i, e)[k].1 <= e,
    decreases e - i,
{
    if i < e {
        if ws_len(s, i, e) > 0 {
            lemma_tokens_bounds(s, i + ws_len(s, i, e), e);
            assert(tokens(s, i, e) == tokens(s, i + ws_len(s, i, e), e));
        } else {
            let k = tok_end(s, i + 1, e);
            lemma_tok_end(s, i + 1, e);
            lemma_tokens_bounds(s, k, e);
            let t = tokens(s, i, e);
            assert(t == seq![(i, k)] + tokens(s, k, e));
            assert forall|k2: int| 0 <= k2 < t.len() implies i <= (#[trigger] t[k2]).0 < t[k2].1 <= e by {
                if k2 > 0 {
                    assert(t[k2] == tokens(s, k, e)[k2 - 1]);
                }
            }
        }
    }
}

/// Reads one entry as an `i32`, as `parse_int` says.
fn parse_entry(s: &[u8], a: usize, b: usize) -> (r: Option<i32>)
    requires
        a < b <= s.len(),
    ensures
        r == parse_int(s@.subrange(a as int, b as int)),
{
    let ghost t = s@.subrange(a as int, b as int);
    assert(t[0] == s@[a as int]);
    let neg = s[a] == 45;
    let signed = s[a] == 45 || s[a] == 43;
    let start = if signed { a + 1 } else { a };
    let ghost d = if signed { t.drop_first() } else { t };
    assert(d =~= s@.subrange(start as int, b as int));
    if start >= b {
        assert(d.len() == 0);
        return None;
    }
    let mut acc: i64 = 0;
    let mut big = false;
    let mut k = start;
    while k < b
        invariant
            a <= start < b <= s.len(),
            start <= k <= b,
            t == s@.subrange(a as int, b as int),
            t.len() > 0,
            signed == (t[0] == 45 || t[0] == 43),
            neg == (t[0] == 45),
            d == (if signed { t.drop_first() } else { t }),
            d == s@.subrange(start as int, b as int),
            all_digits(s@.subrange(start as int, k as int)),
            !big ==> acc as int == dec_value(s@.subrange(start as int, k as int)),
            !big ==> 0 <= acc <= 2147483648,
            big ==> dec_value(s@.subrange(start as int, k as int)) > 2147483648,
        decreases b - k,
    {
        let c = s[k];
        let ghost pre = s@.subrange(start as int, k as int);
        let ghost pre1 = s@.subrange(start as int, k + 1);
        assert(pre1.drop_last() =~= pre);
        assert(pre1.last() == c);
        if c < 48 || c > 57 {
            assert(!all_digits(d)) by {
                assert(d[k - start] == c);
            }
            return None;
        }
        proof {
            lemma_dec_value_nonneg(pre);
        }
        if !big {
            let nv = acc * 10 + (c - 48) as i64;
            if nv > 2147483648 {
                big = true;
            } else {
                acc = nv;
            }
        }
        assert(all_digits(pre1)) by {
            assert forall|i: int| 0 <= i < pre1.len() implies 48 <= #[trigger] pre1[i] <= 57 by {
                if i < pre.len() {
                    assert(pre1[i] == pre[i]);
                }
            }
        }
        k += 1;
    }
    assert(s@.subrange(start as int, b as int) =~= d);
    if big {
        return None;
    }
    if neg {
        if acc <= 2147483648 {
            Some((-acc) as i32)
        } else {
            None
        }
    } else {
        if acc <= 2147483647 {
            Some(acc as i32)
        } else {
            None
        }
    }
}

/// Spans of `usize` places as spans of integers.
pub open spec fn spans(v: Seq<(usize, usize)>) -> Seq<(int, int)> {
    v.map_values(|p: (usize, usize)| (p.0 as int, p.1 as int))
}

/// Rows read so far, before those of the rest.
pub open spec fn prepend(rows: Seq<Seq<i32>>, rest: Option<Seq<Seq<i32>>>) -> Option<Seq<Seq<i32>>> {
    match rest {
        Some(r) => Some(rows + r),
        None => None,
    }
}

/// The length of the white-space character that starts at place `i` of `s[..e]`, or `0`.
fn ws_len_at(s: &[u8], i: usize, e: usize) -> (r: usize)
    requires
        i < e <= s.len(),
    ensures
        r as int == ws_len(s@, i as int, e as int),
{
    let c = s[i];
    if c == 32 || (9 <= c && c <= 13) {
        1
    } else if i + 1 < e && c == 0xC2 && (s[i + 1] == 0x85 || s[i + 1] == 0xA0) {
        2
    } else if e - i > 2 {
        let c1 = s[i + 1];
        let c2 = s[i + 2];
        if (c == 0xE1 && c1 == 0x9A && c2 == 0x80)
            || (c == 0xE2 && c1 == 0x80 && ((0x80 <= c2 && c2 <= 0x8A) || c2 == 0xA8 || c2 == 0xA9 || c2 == 0xAF))
            || (c == 0xE2 && c1 == 0x81 && c2 == 0x9F)
            || (c == 0xE3 && c1 == 0x80 && c2 == 0x80) {
            3
        } else {
            0
        }
    } else {
        0
    }
}

/// The place where the line that starts at `i` ends.
fn find_line_end(s: &[u8], i: usize) -> (e: usize)
    requires
        i <= s.len(),
    ensures
        e as int == line_end(s@, i as int),
        i <= e <= s.len(),
{
    let mut e = i;
    while e < s.len() && s[e] != 10
        invariant
            i <= e <= s.len(),
            line_end(s@, e as int) == line_end(s@, i as int),
        decreases s.len() - e,
    {
        e += 1;
    }
    e
}

/// The spans of the entries of `s[i..e]`.
fn line_tokens(s: &[u8], i: usize, e: usize) -> (sp: Vec<(usize, usize)>)
    requires
        i <= e <= s.len(),
    ensures
        spans(sp@) == tokens(s@, i as int, e as int),
{
    let mut sp = Vec::<(usize, usize)>::new();
    let mut j = i;
    while j < e
        invariant
            i <= j <= e <= s.len(),
            spans(sp@) + tokens(s@, j as int, e as int) == tokens(s@, i as int, e as int),
        decreases e - j,
    {
        let ghost before = spans(sp@);
        let wl = ws_len_at(s, j, e);
        if wl > 0 {
            assert(tokens(s@, j as int, e as int) == tokens(s@, j + wl, e as int));
            j += wl;
        } else {
            let mut k = j + 1;
            while k < e && ws_len_at(s, k, e) == 0
                invariant
                    j + 1 <= k <= e <= s.len(),
                    tok_end(s@, k as int, e as int) == tok_end(s@, j + 1, e as int),
                decreases e - k,
            {
                k += 1;
            }
            proof {
                lemma_tok_end(s@, j + 1, e as int);
                assert(tok_end(s@, j + 1, e as int) == k);
                assert(tokens(s@, j as int, e as int) == seq![(j as int, k as int)] + tokens(s@, k as int, e as int));
            }
            sp.push((j, k));
            assert(spans(sp@) =~= before.push((j as int, k as int)));
            assert(spans(sp@) + tokens(s@, k as int, e as int) =~= before + tokens(s@, j as int, e as int));
            j = k;
        }
    }
    assert(spans(sp@) + tokens(s@, j as int, e as int) =~= spans(sp@));
    sp
}

proof fn lemma_parse_row_none(s: Seq<u8>, sp: Seq<(int, int)>, t: int)
    requires
        0 <= t <= sp.len(),
        parse_row(s, sp.take(t)) is None,
    ensures
        parse_row(s, sp) is None,
    decreases sp.len() - t,
{
    if t < sp.len() {
        assert(sp.take(t + 1).drop_last() =~= sp.take(t));
        lemma_parse_row_none(s, sp, t + 1);
    } else {
        assert(sp.take(t) =~= sp);
    }
}

/// Reads a QUBO matrix from the bytes of its file: the rows of `parse_lines`, or the error
/// `parse error` where an entry of a row is no `i32`.
pub fn parse_qubo(s: &[u8]) -> (r: Result<Vec<Vec<i32>>, String>)
    requires
        s.len() < usize::MAX,
    ensures
        r is Ok <==> parse_lines(s@, 0) is Some,
        r matches Ok(rows) ==> parse_lines(s@, 0) == Some(rows.deep_view()),
        r matches Err(msg) ==> msg@ == "parse error"@,
{
    let mut rows = Vec::<Vec<i32>>::new();
    let mut i: usize = 0;
    while i < s.len()
        invariant
            s.len() < usize::MAX,
            i <= s.len() + 1,
            prepend(rows.deep_view(), parse_lines(s@, i as int)) == parse_lines(s@, 0),
        decreases s.len() + 1 - i,
    {
        let e = find_line_end(s, i);
        let sp = line_tokens(s, i, e);
        let ghost ssp = spans(sp@);
        let ghost rest = if e >= s.len() { Some(Seq::<Seq<i32>>::empty()) } else { parse_lines(s@, e + 1) };
        proof {
            lemma_tokens_bounds(s@, i as int, e as int);
            assert(parse_lines(s@, (e + 1) as int) == rest);
        }
        if sp.len() >= 2 && !(sp[0].1 == sp[0].0 + 1 && s[sp[0].0] == 99) {
            assert(ssp[0] == (sp@[0].0 as int, sp@[0].1 as int));
            assert(is_row(s@, ssp));
            let mut row = Vec::<i32>::new();
            for t in 0..sp.len()
                invariant
                    ssp == spans(sp@),
                    ssp == tokens(s@, i as int, e as int),
                    forall|k: int| 0 <= k < ssp.len() ==> i <= (#[trigger] ssp[k]).0 < ssp[k].1 <= e,
                    e <= s.len(),
                    i < s.len(),
                    e as int == line_end(s@, i as int),
                    is_row(s@, ssp),
                    prepend(rows.deep_view(), parse_lines(s@, i as int)) == parse_lines(s@, 0),
                    parse_row(s@, ssp.take(t as int)) == Some(row@),
            {
                assert(ssp[t as int] == (sp@[t as int].0 as int, sp@[t as int].1 as int));
                assert(ssp.take(t + 1).drop_last() =~= ssp.take(t as int));
                assert(ssp.take(t + 1).last() == ssp[t as int]);
                match parse_entry(s, sp[t].0, sp[t].1) {
                    Some(v) => {
                        row.push(v);
                    },
                    None => {
                        proof {
                            lemma_parse_row_none(s@, ssp, t + 1);
                            assert(parse_lines(s@, i as int) is None);
                        }
                        return Err("parse error".to_string());
                    },
                }
            }
            assert(ssp.take(sp.len() as int) =~= ssp);
            let ghost before = rows.deep_view();
            let ghost rv = row@;
            assert(row.deep_view() =~= rv);
            rows.push(row);
            proof {
                assert(rows.deep_view().len() == before.len() + 1);
                assert forall|k: int| 0 <= k < rows.deep_view().len() implies #[trigger] rows.deep_view()[k] == before.push(rv)[k] by {
                    if k < before.len() {
                        assert(rows.deep_view()[k] == before[k]);
                    }
                }
                assert(rows.deep_view() =~= before.push(rv));
                match rest {
                    Some(rs) => {
                        assert(before + (seq![rv] + rs) =~= rows.deep_view() + rs);
                    },
                    None => {},
                }
            }
        }
        i = e + 1;
    }
    assert(parse_lines(s@, i as int) == Some(Seq::<Seq<i32>>::empty()));
    assert(rows.deep_view() + Seq::<Seq<i32>>::empty() =~= rows.deep_view());
    Ok(rows)
}

proof fn lemma_dec_value_nonneg(d: Seq<u8>)
    requires
        all_digits(d),
    ensures
        dec_value(d) >= 0,
    decreases d.len(),
{
    if d.len() > 0 {
        assert(all_digits(d.drop_last())) by {
            assert forall|i: int| 0 <= i < d.drop_last().len() implies 48 <= #[trigger] d.drop_last()[i] <= 57 by {
                assert(d.drop_last()[i] == d[i]);
            }
        }
        lemma_dec_value_nonneg(d.drop_last());
    }
}

/// The decimal text of a natural number: its digits `0`..`9` (bytes `48`..`57`), most
/// significant first, with no leading zero.
pub open spec fn digits_text(m: nat) -> Seq<u8>
    decreases m,
{
    if m < 10 {
        seq![(48 + m) as u8]
    } else {
        digits_text(m / 10).push((48 + m % 10) as u8)
    }
}

/// The decimal text of an integer as `to_string` writes it: `-` before the digits of a
/// negative one.
pub open spec fn decimal_text(v: int) -> Seq<u8> {
    if v < 0 { seq![45u8] + digits_text((-v) as nat) } else { digits_text(v as nat) }
}

proof fn lemma_digits_text(m: nat)
    ensures
        digits_text(m).len() >= 1,
        all_digits(digits_text(m)),
        dec_value(digits_text(m)) == m,
    decreases m,
{
    let t = digits_text(m);
    if m < 10 {
        assert(t.drop_last() =~= Seq::<u8>::empty());
        assert(t.last() == (48 + m) as u8);
        assert(dec_value(t) == dec_value(t.drop_last()) * 10 + (t.last() - 48));
    } else {
        lemma_digits_text(m / 10);
        assert(t.drop_last() =~= digits_text(m / 10));
        assert(t.last() == (48 + m % 10) as u8);
        vstd::arithmetic::div_mod::lemma_fundamental_div_mod(m as int, 10);
        assert(dec_value(t) == dec_value(t.drop_last()) * 10 + (t.last() - 48));
        assert forall|i: int| 0 <= i < t.len() implies 48 <= #[trigger] t[i] <= 57 by {
            if i < t.len() - 1 {
                assert(t[i] == digits_text(m / 10)[i]);
            }
        }
    }
}

/// Every integer written in decimal, as `to_string` writes it, is read back as itself where
/// it is an `i32`, and refused where it is not: the entries of a matrix file are exactly the
/// numbers written there. A leading `+` changes nothing.
pub proof fn lemma_parse_decimal(v: int)
    ensures
        parse_int(decimal_text(v)) == if i32::MIN <= v <= i32::MAX { Some(v as i32) } else { None },
        v >= 0 ==> parse_int(seq![43u8] + decimal_text(v)) == if v <= i32::MAX { Some(v as i32) } else { None },
{
    let t = decimal_text(v);
    if v < 0 {
        let m = (-v) as nat;
        lemma_digits_text(m);
        assert(t.drop_first() =~= digits_text(m));
        assert(t[0] == 45);
    } else {
        lemma_digits_text(v as nat);
        let d = digits_text(v as nat);
        assert(48 <= d[0] <= 57);
        let tp = seq![43u8] + d;
        assert(tp.drop_first() =~= d);
        assert(tp[0] == 43);
    }
}

/// A row written as a line: the decimal texts of its entries, separated by single spaces.
pub open spec fn row_text(r: Seq<i32>) -> Seq<u8>
    decreases r.len(),
{
    if r.len() == 0 {
        seq![]
    } else if r.len() == 1 {
        decimal_text(r[0] as int)
    } else {
        decimal_text(r[0] as int) + seq![32u8] + row_text(r.drop_first())
    }
}

/// Rows written as a file: each row's line, ended by a line feed.
pub open spec fn file_text(rs: Seq<Seq<i32>>) -> Seq<u8>
    decreases rs.len(),
{
    if rs.len() == 0 { seq![] } else { row_text(rs[0]) + seq![10u8] + file_text(rs.drop_first()) }
}

/// A decimal text is a `-` or digits, at least one byte.
proof fn lemma_decimal_bytes(v: int)
    ensures
        decimal_text(v).len() >= 1,
        forall|j: int| 0 <= j < decimal_text(v).len() ==> #[trigger] decimal_text(v)[j] == 45 || 48 <= decimal_text(v)[j] <= 57,
{
    if v < 0 {
        let m = (-v) as nat;
        lemma_digits_text(m);
        let t = decimal_text(v);
        assert forall|j: int| 0 <= j < t.len() implies #[trigger] t[j] == 45 || 48 <= t[j] <= 57 by {
            if j > 0 {
                assert(t[j] == digits_text(m)[j - 1]);
            }
        }
    } else {
        lemma_digits_text(v as nat);
    }
}

/// A row's line holds no white space and no line feed but the single spaces between
/// entries.
proof fn lemma_row_bytes(r: Seq<i32>)
    ensures
        forall|j: int| 0 <= j < row_text(r).len() ==> #[trigger] row_text(r)[j] == 32 || row_text(r)[j] == 45 || 48 <= row_text(r)[j] <= 57,
    decreases r.len(),
{
    if r.len() >= 1 {
        lemma_decimal_bytes(r[0] as int);
    }
    if r.len() >= 2 {
        lemma_row_bytes(r.drop_first());
        let d = decimal_text(r[0] as int);
        let t = row_text(r);
        assert forall|j: int| 0 <= j < t.len() implies #[trigger] t[j] == 32 || t[j] == 45 || 48 <= t[j] <= 57 by {
            if j < d.len() {
                assert(t[j] == d[j]);
            } else if j > d.len() {
                assert(t[j] == row_text(r.drop_first())[j - d.len() - 1]);
            }
        }
    }
}

/// A token runs to the first white space.
proof fn lemma_tok_end_at(s: Seq<u8>, j: int, k: int, e: int)
    requires
        0 <= j <= k <= e <= s.len(),
        forall|t: int| j <= t < k ==> #[trigger] s[t] == 45 || 48 <= s[t] <= 57,
        k == e || s[k] == 32,
    ensures
        tok_end(s, j, e) == k,
    decreases k - j,
{
    if j < k {
        assert(s[j] == 45 || 48 <= s[j] <= 57);
        lemma_tok_end_at(s, j + 1, k, e);
    }
}

/// Reading a row from a list of spans that starts with one span.
proof fn lemma_parse_row_cons(s: Seq<u8>, x: (int, int), sp: Seq<(int, int)>)
    ensures
        parse_row(s, seq![x] + sp) == match (parse_int(s.subrange(x.0, x.1)), parse_row(s, sp)) {
            (Some(v), Some(r)) => Some(seq![v] + r),
            _ => None::<Seq<i32>>,
        },
    decreases sp.len(),
{
    let q = seq![x] + sp;
    if sp.len() == 0 {
        assert(q.drop_last() =~= Seq::<(int, int)>::empty());
        assert(q.last() == x);
        assert(parse_row(s, Seq::<(int, int)>::empty()) == Some(Seq::<i32>::empty()));
        assert(parse_row(s, sp) == Some(Seq::<i32>::empty()));
        assert(parse_row(s, q) == match (parse_row(s, q.drop_last()), parse_int(s.subrange(q.last().0, q.last().1))) {
            (Some(r), Some(v)) => Some(r.push(v)),
            _ => None,
        });
        match parse_int(s.subrange(x.0, x.1)) {
            Some(v) => {
                assert(seq![v] =~= seq![v] + Seq::<i32>::empty());
                assert(Seq::<i32>::empty().push(v) =~= seq![v]);
            },
            None => {},
        }
    } else {
        lemma_parse_row_cons(s, x, sp.drop_last());
        assert(q.drop_last() =~= seq![x] + sp.drop_last());
        assert(q.last() == sp.last());
        assert(parse_row(s, q) == match (parse_row(s, q.drop_last()), parse_int(s.subrange(q.last().0, q.last().1))) {
            (Some(r), Some(v)) => Some(r.push(v)),
            _ => None,
        });
        assert(parse_row(s, sp) == match (parse_row(s, sp.drop_last()), parse_int(s.subrange(sp.last().0, sp.last().1))) {
            (Some(r), Some(v)) => Some(r.push(v)),
            _ => None,
        });
        match (parse_int(s.subrange(x.0, x.1)), parse_row(s, sp.drop_last()), parse_int(s.subrange(sp.last().0, sp.last().1))) {
            (Some(v), Some(r), Some(u)) => {
                assert((seq![v] + r).push(u) =~= seq![v] + r.push(u));
            },
            _ => {},
        }
    }
}

/// The entries of a row's line are read back as the row.
proof fn lemma_row_tokens(s: Seq<u8>, i: int, e: int, r: Seq<i32>)
    requires
        0 <= i <= e <= s.len(),
        r.len() >= 1,
        s.subrange(i, e) == row_text(r),
    ensures
        tokens(s, i, e).len() == r.len(),
        tokens(s, i, e)[0].0 == i,
        s[i] != 99,
        tokens(s, i, e)[0].1 > i,
        parse_row(s, tokens(s, i, e)) == Some(r),
    decreases r.len(),
{
    let d = decimal_text(r[0] as int);
    let k = i + d.len();
    lemma_decimal_bytes(r[0] as int);
    lemma_parse_decimal(r[0] as int);
    if r.len() >= 2 {
        assert(row_text(r) == d + seq![32u8] + row_text(r.drop_first()));
    }
    assert(d.len() <= row_text(r).len());
    assert(row_text(r).len() == e - i);
    assert(row_text(r).subrange(0, d.len() as int) =~= d);
    assert(s.subrange(i, k) =~= d) by {
        assert forall|t: int| 0 <= t < d.len() implies s.subrange(i, k)[t] == d[t] by {
            assert(s[i + t] == s.subrange(i, e)[t]);
        }
    }
    assert forall|t: int| i <= t < k implies #[trigger] s[t] == 45 || 48 <= s[t] <= 57 by {
        assert(s[t] == d[t - i]);
    }
    assert(s[i] == d[0]);
    if r.len() >= 2 {
        assert(s[k] == s.subrange(i, e)[d.len() as int]);
    } else {
        assert(k == e);
    }
    lemma_tok_end_at(s, i + 1, k, e);
    assert(ws_len(s, i, e) == 0);
    let rest = tokens(s, k, e);
    assert(tokens(s, i, e) == seq![(i, k)] + rest);
    lemma_parse_row_cons(s, (i, k), rest);
    if r.len() == 1 {
        assert(rest =~= Seq::<(int, int)>::empty());
        assert(seq![r[0]] + Seq::<i32>::empty() =~= r);
    } else {
        assert(ws_len(s, k, e) == 1);
        assert(rest == tokens(s, k + 1, e));
        let r1 = r.drop_first();
        assert(s.subrange(k + 1, e) =~= row_text(r1)) by {
            assert forall|t: int| 0 <= t < e - (k + 1) implies s.subrange(k + 1, e)[t] == row_text(r1)[t] by {
                assert(s[k + 1 + t] == s.subrange(i, e)[d.len() + 1 + t]);
            }
        }
        lemma_row_tokens(s, k + 1, e, r1);
        assert(seq![r[0]] + r1 =~= r);
    }
}

/// A line ends at the first line feed.
proof fn lemma_line_end_at(s: Seq<u8>, i: int, e: int)
    requires
        0 <= i <= e <= s.len(),
        forall|t: int| i <= t < e ==> #[trigger] s[t] != 10,
        e == s.len() || s[e] == 10,
    ensures
        line_end(s, i) == e,
    decreases e - i,
{
    if i < e {
        lemma_line_end_at(s, i + 1, e);
    }
}

proof fn lemma_file_lines(s: Seq<u8>, i: int, rs: Seq<Seq<i32>>)
    requires
        0 <= i <= s.len(),
        s.skip(i) == file_text(rs),
        forall|k: int| 0 <= k < rs.len() ==> (#[trigger] rs[k]).len() >= 2,
    ensures
        parse_lines(s, i) == Some(rs),
    decreases rs.len(),
{
    if rs.len() == 0 {
        assert(s.skip(i).len() == 0);
    } else {
        let r = rs[0];
        let t = row_text(r);
        let e = i + t.len();
        let rs1 = rs.drop_first();
        assert(file_text(rs) == t + seq![10u8] + file_text(rs1));
        lemma_row_bytes(r);
        assert forall|j: int| i <= j < e implies #[trigger] s[j] != 10 by {
            assert(s[j] == s.skip(i)[j - i]);
            assert(s.skip(i)[j - i] == t[j - i]);
        }
        assert(s[e] == s.skip(i)[t.len() as int]);
        lemma_line_end_at(s, i, e);
        assert(s.subrange(i, e) =~= t) by {
            assert forall|j: int| 0 <= j < t.len() implies s.subrange(i, e)[j] == t[j] by {
                assert(s[i + j] == s.skip(i)[j]);
            }
        }
        assert(rs[0].len() >= 2);
        lemma_row_tokens(s, i, e, r);
        let sp = tokens(s, i, e);
        assert(is_row(s, sp));
        assert(s.skip(e + 1) =~= file_text(rs1)) by {
            assert forall|j: int| 0 <= j < s.skip(e + 1).len() implies s.skip(e + 1)[j] == file_text(rs1)[j] by {
                assert(s[e + 1 + j] == s.skip(i)[t.len() + 1 + j]);
            }
        }
        assert forall|k: int| 0 <= k < rs1.len() implies (#[trigger] rs1[k]).len() >= 2 by {
            assert(rs1[k] == rs[k + 1]);
        }
        lemma_file_lines(s, e + 1, rs1);
        assert(seq![r] + rs1 =~= rs);
    }
}

/// A file written from rows of at least two `i32` entries each, one line per row with
/// entries in decimal separated by spaces, is read back as exactly those rows.
pub proof fn lemma_parse_file(rs: Seq<Seq<i32>>)
    requires
        forall|k: int| 0 <= k < rs.len() ==> (#[trigger] rs[k]).len() >= 2,
    ensures
        parse_lines(file_text(rs), 0) == Some(rs),
{
    assert(file_text(rs).skip(0) =~= file_text(rs));
    lemma_file_lines(file_text(rs), 0, rs);
}

} // verus!
