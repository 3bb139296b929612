//! The plain-text seed format and its verified parser.
//!
//! A seed is a header line `<rows>x<cols>` followed by `rows` lines of
//! `cols` digits, each digit `0` or `1`, a `1` marking a live cell. The
//! parser turns a well-formed seed into a grid by way of [`Universe::new`]
//! and [`Universe::set_cells`], and reports exactly why a malformed one is
//! rejected.

use crate::grid::Universe;
use crate::model::GridModel;
use vstd::arithmetic::div_mod::lemma_fundamental_div_mod;
use vstd::prelude::*;

verus! {

/// Why a seed text was rejected: a first line that is not `<rows>x<cols>`,
/// dimensions that are zero or too large for the engine, a number of lines
/// that does not match the declared row count, or a line that is not
/// exactly `cols` digits of `0`/`1`.
#[derive(Clone, Copy, Debug, PartialEq, Eq, Structural)]
pub enum SeedError {
    MalformedHeader,
    InvalidDimensions,
    WrongLineCount,
    MalformedLine,
}

pub open spec fn is_digit(b: u8) -> bool {
    48 <= b <= 57
}

/// The number a sequence of digit bytes denotes, most significant first.
pub open spec fn numeral_val(s: Seq<u8>) -> int
    decreases s.len(),
{
    if s.len() == 0 {
        0
    } else {
        numeral_val(s.drop_last()) * 10 + (s.last() - 48)
    }
}

/// A nonempty, all-digit sequence of bytes.
pub open spec fn is_numeral(s: Seq<u8>) -> bool {
    s.len() > 0 && forall|i: int| 0 <= i < s.len() ==> is_digit(s[i])
}

/// Splits on every newline byte: always one more piece than there are
/// newlines, so a trailing newline yields a trailing empty piece.
pub open spec fn split_lines(t: Seq<u8>) -> Seq<Seq<u8>>
    decreases t.len(),
{
    if t.len() == 0 {
        seq![Seq::empty()]
    } else if t[0] == 10 {
        seq![Seq::<u8>::empty()] + split_lines(t.subrange(1, t.len() as int))
    } else {
        let rest = split_lines(t.subrange(1, t.len() as int));
        seq![seq![t[0]] + rest[0]] + rest.subrange(1, rest.len() as int)
    }
}

/// The lines of a text: the split pieces, except that the empty piece after
/// a trailing newline is dropped, so an empty text has no lines and a text
/// may or may not end in a newline.
pub open spec fn text_lines(t: Seq<u8>) -> Seq<Seq<u8>> {
    let raw = split_lines(t);
    if raw.last().len() == 0 {
        raw.drop_last()
    } else {
        raw
    }
}

/// Position `k` cuts the header into `<rows>x<cols>`: an `x` with a numeral
/// on each side.
pub open spec fn header_split_at(s: Seq<u8>, k: int) -> bool {
    &&& 0 <= k < s.len()
    &&& s[k] == 120
    &&& is_numeral(s.subrange(0, k))
    &&& is_numeral(s.subrange(k + 1, s.len() as int))
}

pub open spec fn valid_header(s: Seq<u8>) -> bool {
    exists|k: int| header_split_at(s, k)
}

pub open spec fn header_rows(s: Seq<u8>) -> int {
    numeral_val(s.subrange(0, choose|k: int| header_split_at(s, k)))
}

pub open spec fn header_cols(s: Seq<u8>) -> int {
    let k = choose|k: int| header_split_at(s, k);
    numeral_val(s.subrange(k + 1, s.len() as int))
}

pub open spec fn seed_header_ok(t: Seq<u8>) -> bool {
    text_lines(t).len() >= 1 && valid_header(text_lines(t)[0])
}

pub open spec fn seed_rows(t: Seq<u8>) -> int {
    header_rows(text_lines(t)[0])
}

pub open spec fn seed_cols(t: Seq<u8>) -> int {
    header_cols(text_lines(t)[0])
}

/// The declared dimensions are positive and the cell count fits the engine.
pub open spec fn seed_dims_ok(t: Seq<u8>) -> bool {
    0 < seed_rows(t) && 0 < seed_cols(t) && seed_rows(t) * seed_cols(t) <= u32::MAX as int
}

pub open spec fn seed_count_ok(t: Seq<u8>) -> bool {
    text_lines(t).len() == seed_rows(t) + 1
}

/// One body line: exactly `cols` bytes, each `0` or `1`.
pub open spec fn seed_line_ok(line: Seq<u8>, cols: int) -> bool {
    line.len() == cols && forall|j: int| 0 <= j < line.len() ==> line[j] == 48 || line[j] == 49
}

pub open spec fn seed_body_ok(t: Seq<u8>) -> bool {
    forall|i: int| 1 <= i < text_lines(t).len() ==> seed_line_ok(#[trigger] text_lines(t)[i], seed_cols(t))
}

/// A well-formed seed text.
pub open spec fn seed_ok(t: Seq<u8>) -> bool {
    seed_header_ok(t) && seed_dims_ok(t) && seed_count_ok(t) && seed_body_ok(t)
}

/// Whether the seed marks cell `(r, c)` alive: digit `1` at column `c` of
/// body line `r`.
pub open spec fn seed_cell(t: Seq<u8>, r: int, c: int) -> bool {
    text_lines(t)[r + 1][c] == 49
}

proof fn lemma_split_nonempty(t: Seq<u8>)
    ensures
        split_lines(t).len() >= 1,
    decreases t.len(),
{
    if t.len() > 0 {
        lemma_split_nonempty(t.subrange(1, t.len() as int));
    }
}

/// Appending one byte either extends the last piece or, for a newline,
/// opens a new empty piece.
proof fn lemma_split_push(t: Seq<u8>, b: u8)
    ensures
        b == 10 ==> split_lines(t.push(b)) == split_lines(t).push(Seq::<u8>::empty()),
        b != 10 ==> split_lines(t.push(b)) == split_lines(t).update(
            split_lines(t).len() - 1,
            split_lines(t).last().push(b),
        ),
    decreases t.len(),
{
    lemma_split_nonempty(t);
    let tp = t.push(b);
    if t.len() == 0 {
        assert(tp[0] == b);
        assert(tp.subrange(1, tp.len() as int) =~= Seq::<u8>::empty());
        assert(split_lines(Seq::<u8>::empty()) == seq![Seq::<u8>::empty()]);
        if b == 10 {
            assert(split_lines(tp) =~~= split_lines(t).push(Seq::<u8>::empty()));
        } else {
            assert(split_lines(tp) =~~= split_lines(t).update(
                split_lines(t).len() - 1,
                split_lines(t).last().push(b),
            ));
        }
    } else {
        let t1 = t.subrange(1, t.len() as int);
        assert(tp[0] == t[0]);
        assert(tp.subrange(1, tp.len() as int) =~= t1.push(b));
        lemma_split_push(t1, b);
        lemma_split_nonempty(t1);
        if b == 10 {
            assert(split_lines(tp) =~~= split_lines(t).push(Seq::<u8>::empty()));
        } else {
            assert(split_lines(tp) =~~= split_lines(t).update(
                split_lines(t).len() - 1,
                split_lines(t).last().push(b),
            ));
        }
    }
}

proof fn lemma_numeral_nonneg(s: Seq<u8>)
    requires
        forall|i: int| 0 <= i < s.len() ==> is_digit(s[i]),
    ensures
        numeral_val(s) >= 0,
    decreases s.len(),
{
    if s.len() > 0 {
        lemma_numeral_nonneg(s.drop_last());
    }
}

proof fn lemma_numeral_take_step(s: Seq<u8>, m: int)
    requires
        0 <= m < s.len(),
    ensures
        numeral_val(s.take(m + 1)) == numeral_val(s.take(m)) * 10 + (s[m] - 48),
{
    assert(s.take(m + 1).drop_last() =~= s.take(m));
    assert(s.take(m + 1).last() == s[m]);
}

/// A numeral is at least the value of any of its prefixes.
proof fn lemma_numeral_take_mono(s: Seq<u8>, m: int)
    requires
        forall|i: int| 0 <= i < s.len() ==> is_digit(s[i]),
        0 <= m <= s.len(),
    ensures
        numeral_val(s) >= numeral_val(s.take(m)) >= 0,
    decreases s.len() - m,
{
    assert forall|i: int| 0 <= i < s.take(m).len() implies is_digit(s.take(m)[i]) by {}
    lemma_numeral_nonneg(s.take(m));
    if m == s.len() {
        assert(s.take(m) =~= s);
    } else {
        lemma_numeral_take_step(s, m);
        lemma_numeral_take_mono(s, m + 1);
    }
}

/// Only one position can cut a header into `<rows>x<cols>`: the sides are
/// digits, so no second `x` fits.
proof fn lemma_header_unique(s: Seq<u8>, k1: int, k2: int)
    requires
        header_split_at(s, k1),
        header_split_at(s, k2),
    ensures
        k1 == k2,
{
    if k1 < k2 {
        assert(is_digit(s.subrange(k1 + 1, s.len() as int)[k2 - k1 - 1]));
    }
    if k2 < k1 {
        assert(is_digit(s.subrange(k2 + 1, s.len() as int)[k1 - k2 - 1]));
    }
}

/// Whether bytes `start..end` of `v` form a nonempty run of digits.
fn is_numeral_range(v: &Vec<u8>, start: usize, end: usize) -> (r: bool)
    requires
        start <= end <= v@.len(),
    ensures
        r == is_numeral(v@.subrange(start as int, end as int)),
{
    let ghost sub = v@.subrange(start as int, end as int);
    if start == end {
        return false;
    }
    let mut j = start;
    while j < end
        invariant
            start <= j <= end <= v@.len(),
            sub == v@.subrange(start as int, end as int),
            forall|i: int| start as int <= i < j as int ==> is_digit(v@[i]),
        decreases end - j,
    {
        let b = v[j];
        if b < 48 || b > 57 {
            proof {
                assert(sub[j - start] == v@[j as int]);
            }
            return false;
        }
        j = j + 1;
    }
    proof {
        assert forall|i: int| 0 <= i < sub.len() implies is_digit(sub[i]) by {
            assert(sub[i] == v@[start as int + i]);
        }
    }
    true
}

/// Reads bytes `start..end` of `v` as a decimal number, or reports that the
/// value does not fit a `u32`.
fn parse_u32_range(v: &Vec<u8>, start: usize, end: usize) -> (r: Option<u32>)
    requires
        start <= end <= v@.len(),
        is_numeral(v@.subrange(start as int, end as int)),
    ensures
        match r {
            Some(n) => n as int == numeral_val(v@.subrange(start as int, end as int)),
            None => numeral_val(v@.subrange(start as int, end as int)) > u32::MAX as int,
        },
{
    let ghost sub = v@.subrange(start as int, end as int);
    let mut val: u32 = 0;
    let mut j = start;
    proof {
        assert(sub.take(0) =~= Seq::<u8>::empty());
    }
    while j < end
        invariant
            start <= j <= end <= v@.len(),
            sub == v@.subrange(start as int, end as int),
            is_numeral(sub),
            val as int == numeral_val(sub.take(j - start)),
        decreases end - j,
    {
        let b = v[j];
        proof {
            assert(sub[j - start] == v@[j as int]);
            assert(is_digit(sub[j - start]));
        }
        let d = b - 48;
        proof {
            lemma_numeral_take_step(sub, j - start);
        }
        if val > 429496729u32 || (val == 429496729u32 && d > 5) {
            proof {
                lemma_numeral_take_mono(sub, j - start + 1);
            }
            return None;
        }
        val = val * 10 + (d as u32);
        j = j + 1;
    }
    proof {
        assert(sub.take(end - start) =~= sub);
    }
    Some(val)
}

/// Whether `v` is one well-formed body line: `cols` bytes of `0` or `1`.
fn line_ok(v: &Vec<u8>, cols: u32) -> (r: bool)
    requires
        cols as int <= usize::MAX as int,
    ensures
        r == seed_line_ok(v@, cols as int),
{
    if v.len() != cols as usize {
        return false;
    }
    let mut j: usize = 0;
    while j < v.len()
        invariant
            j <= v@.len(),
            forall|i: int| 0 <= i < j as int ==> v@[i] == 48 || v@[i] == 49,
        decreases v@.len() - j,
    {
        let b = v[j];
        if b != 48 && b != 49 {
            return false;
        }
        j = j + 1;
    }
    true
}

/// Splits a text into its lines, as [`text_lines`] defines them.
fn collect_lines(text: &[u8]) -> (lines: Vec<Vec<u8>>)
    ensures
        lines@.len() == text_lines(text@).len(),
        forall|i: int| 0 <= i < lines@.len() ==> #[trigger] lines@[i]@ == text_lines(text@)[i],
{
    let mut lines: Vec<Vec<u8>> = Vec::new();
    let mut cur: Vec<u8> = Vec::new();
    let mut i: usize = 0;
    proof {
        assert(text@.subrange(0, 0) =~= Seq::<u8>::empty());
        assert(split_lines(Seq::<u8>::empty()) == seq![Seq::<u8>::empty()]);
    }
    while i < text.len()
        invariant
            i <= text@.len(),
            split_lines(text@.subrange(0, i as int)).len() == lines@.len() + 1,
            forall|j: int|
                0 <= j < lines@.len() ==> split_lines(text@.subrange(0, i as int))[j]
                    == #[trigger] lines@[j]@,
            split_lines(text@.subrange(0, i as int)).last() == cur@,
        decreases text@.len() - i,
    {
        let b = text[i];
        proof {
            assert(text@.subrange(0, i as int + 1) =~= text@.subrange(0, i as int).push(
                text@[i as int],
            ));
            lemma_split_push(text@.subrange(0, i as int), b);
        }
        if b == 10 {
            lines.push(cur);
            cur = Vec::new();
        } else {
            cur.push(b);
        }
        i = i + 1;
    }
    proof {
        assert(text@.subrange(0, text@.len() as int) =~= text@);
    }
    let ghost raw = split_lines(text@);
    if cur.len() > 0 {
        lines.push(cur);
        proof {
            assert(text_lines(text@) == raw);
            assert(raw[raw.len() - 1] == raw.last());
        }
    } else {
        proof {
            assert(text_lines(text@) == raw.drop_last());
        }
    }
    lines
}

/// Parses a seed text and builds the grid it describes, by constructing an
/// all-dead grid and marking the cells of every `1` digit alive. A malformed
/// text is rejected with the first applicable error: header, dimensions,
/// line count, then line content.
#[verifier::loop_isolation(false)]
pub fn parse_seed(text: &[u8]) -> (result: Result<Universe, SeedError>)
    ensures
        seed_ok(text@) ==> (result matches Ok(u) && u.well_formed() && u@.wf() && u@.height
            == seed_rows(text@) && u@.width == seed_cols(text@) && (forall|r: int, c: int|
            0 <= r < seed_rows(text@) && 0 <= c < seed_cols(text@) ==> #[trigger] u@.cell(r, c)
                == seed_cell(text@, r, c))),
        !seed_header_ok(text@) ==> (result matches Err(e) && e == SeedError::MalformedHeader),
        (seed_header_ok(text@) && !seed_dims_ok(text@)) ==> (result matches Err(e) && e
            == SeedError::InvalidDimensions),
        (seed_header_ok(text@) && seed_dims_ok(text@) && !seed_count_ok(text@)) ==> (result matches
            Err(e) && e == SeedError::WrongLineCount),
        (seed_header_ok(text@) && seed_dims_ok(text@) && seed_count_ok(text@) && !seed_body_ok(
            text@,
        )) ==> (result matches Err(e) && e == SeedError::MalformedLine),
{
    let ghost tl = text_lines(text@);
    let lines = collect_lines(text);
    if lines.len() == 0 {
        return Err(SeedError::MalformedHeader);
    }
    let header = &lines[0];
    let hlen = header.len();
    let mut k: usize = 0;
    while k < hlen && header[k] != 120u8
        invariant
            hlen == header@.len(),
            k <= hlen,
            forall|j: int| 0 <= j < k as int ==> header@[j] != 120,
        decreases hlen - k,
    {
        k = k + 1;
    }
    if k == hlen {
        proof {
            assert forall|k2: int| !header_split_at(header@, k2) by {
                if 0 <= k2 < header@.len() {
                    assert(header@[k2] != 120);
                }
            }
        }
        return Err(SeedError::MalformedHeader);
    }
    let rows_numeral = is_numeral_range(header, 0, k);
    let cols_numeral = is_numeral_range(header, k + 1, hlen);
    if !rows_numeral || !cols_numeral {
        proof {
            assert forall|k2: int| !header_split_at(header@, k2) by {
                if 0 <= k2 < header@.len() && header@[k2] == 120 {
                    if k2 < k as int {
                        assert(header@[k2] != 120);
                    } else if k2 > k as int {
                        assert(header@.subrange(0, k2)[k as int] == header@[k as int]);
                        assert(!is_numeral(header@.subrange(0, k2)));
                    }
                }
            }
        }
        return Err(SeedError::MalformedHeader);
    }
    proof {
        assert(header_split_at(header@, k as int));
        let kc = choose|k2: int| header_split_at(header@, k2);
        lemma_header_unique(header@, k as int, kc);
        assert(seed_rows(text@) == numeral_val(header@.subrange(0, k as int)));
        assert(seed_cols(text@) == numeral_val(header@.subrange(k as int + 1, header@.len() as int)));
        lemma_numeral_take_mono(header@.subrange(0, k as int), 0);
        lemma_numeral_take_mono(header@.subrange(k as int + 1, header@.len() as int), 0);
        assert(Seq::<u8>::empty() =~= header@.subrange(0, k as int).take(0));
        assert(Seq::<u8>::empty() =~= header@.subrange(
            k as int + 1,
            header@.len() as int,
        ).take(0));
    }
    let rows_opt = parse_u32_range(header, 0, k);
    let cols_opt = parse_u32_range(header, k + 1, hlen);
    let rows: u32 = match rows_opt {
        Some(n) => n,
        None => {
            proof {
                if seed_cols(text@) >= 1 {
                    assert(seed_rows(text@) * seed_cols(text@) >= seed_rows(text@)
                        * 1) by (nonlinear_arith)
                        requires
                            seed_cols(text@) >= 1,
                            seed_rows(text@) >= 0,
                    ;
                }
            }
            return Err(SeedError::InvalidDimensions);
        },
    };
    let cols: u32 = match cols_opt {
        Some(n) => n,
        None => {
            proof {
                if seed_rows(text@) >= 1 {
                    assert(seed_rows(text@) * seed_cols(text@) >= 1 * seed_cols(
                        text@,
                    )) by (nonlinear_arith)
                        requires
                            seed_rows(text@) >= 1,
                            seed_cols(text@) >= 0,
                    ;
                }
            }
            return Err(SeedError::InvalidDimensions);
        },
    };
    if rows == 0 || cols == 0 {
        return Err(SeedError::InvalidDimensions);
    }
    proof {
        assert((rows as int) * (cols as int) <= (u32::MAX as int) * (u32::MAX
            as int)) by (nonlinear_arith)
            requires
                0 <= rows as int <= u32::MAX as int,
                0 <= cols as int <= u32::MAX as int,
        ;
    }
    if (rows as u64) * (cols as u64) > (u32::MAX as u64) {
        return Err(SeedError::InvalidDimensions);
    }
    if (lines.len() as u64) != (rows as u64) + 1 {
        return Err(SeedError::WrongLineCount);
    }
    let mut r: usize = 1;
    while r < lines.len()
        invariant
            1 <= r <= lines@.len(),
            lines@.len() == tl.len(),
            tl == text_lines(text@),
            cols as int <= u32::MAX as int,
            forall|i: int| 0 <= i < lines@.len() ==> #[trigger] lines@[i]@ == tl[i],
            forall|i: int| 1 <= i < r as int ==> seed_line_ok(#[trigger] tl[i], cols as int),
        decreases lines@.len() - r,
    {
        if !line_ok(&lines[r], cols) {
            return Err(SeedError::MalformedLine);
        }
        r = r + 1;
    }
    let mut coords: Vec<(u32, u32)> = Vec::new();
    let mut rr: u32 = 0;
    while rr < rows
        invariant
            rr <= rows,
            lines@.len() == tl.len(),
            tl == text_lines(text@),
            lines@.len() == rows as int + 1,
            forall|i: int| 0 <= i < lines@.len() ==> #[trigger] lines@[i]@ == tl[i],
            forall|i: int| 1 <= i < lines@.len() ==> seed_line_ok(#[trigger] tl[i], cols as int),
            forall|t: int|
                0 <= t < coords@.len() ==> (#[trigger] coords@[t]).0 < rows && coords@[t].1 < cols
                    && tl[coords@[t].0 + 1][coords@[t].1 as int] == 49,
            forall|a: int, b: int|
                0 <= a < rr as int && 0 <= b < cols as int && #[trigger] tl[a + 1][b] == 49
                    ==> coords@.contains((a as u32, b as u32)),
        decreases rows - rr,
    {
        let line = &lines[rr as usize + 1];
        let mut cc: u32 = 0;
        while cc < cols
            invariant
                rr < rows,
                cc <= cols,
                lines@.len() == tl.len(),
                tl == text_lines(text@),
                lines@.len() == rows as int + 1,
                line@ == tl[rr as int + 1],
                forall|i: int| 1 <= i < lines@.len() ==> seed_line_ok(#[trigger] tl[i], cols as int),
                forall|t: int|
                    0 <= t < coords@.len() ==> (#[trigger] coords@[t]).0 < rows && coords@[t].1
                        < cols && tl[coords@[t].0 + 1][coords@[t].1 as int] == 49,
                forall|a: int, b: int|
                    0 <= a < rr as int && 0 <= b < cols as int && #[trigger] tl[a + 1][b] == 49
                        ==> coords@.contains((a as u32, b as u32)),
                forall|b: int|
                    0 <= b < cc as int && #[trigger] tl[rr as int + 1][b] == 49
                        ==> coords@.contains((rr, b as u32)),
            decreases cols - cc,
        {
            let ghost coords_before = coords@;
            let byte = line[cc as usize];
            if byte == 49 {
                coords.push((rr, cc));
            }
            proof {
                assert forall|a: int, b: int|
                    0 <= a < rr as int && 0 <= b < cols as int && #[trigger] tl[a + 1][b]
                        == 49 implies coords@.contains((a as u32, b as u32)) by {
                    let t = choose|t: int|
                        0 <= t < coords_before.len() && coords_before[t] == (a as u32, b as u32);
                    if coords@.len() > coords_before.len() {
                        assert(coords@[t] == (a as u32, b as u32));
                    }
                }
                assert forall|b: int|
                    0 <= b < cc as int + 1 && #[trigger] tl[rr as int + 1][b]
                        == 49 implies coords@.contains((rr, b as u32)) by {
                    if b < cc as int {
                        let t = choose|t: int|
                            0 <= t < coords_before.len() && coords_before[t] == (rr, b as u32);
                        if coords@.len() > coords_before.len() {
                            assert(coords@[t] == (rr, b as u32));
                        }
                    } else {
                        assert(coords@[coords@.len() - 1] == (rr, cc));
                    }
                }
            }
            cc = cc + 1;
        }
        rr = rr + 1;
    }
    proof {
        assert((cols as int) * (rows as int) <= u32::MAX as int) by (nonlinear_arith)
            requires
                (rows as int) * (cols as int) <= u32::MAX as int,
        ;
    }
    let mut grid = match Universe::new(cols, rows) {
        Ok(g) => g,
        Err(_) => {
            proof {
                assert(false);
            }
            return Err(SeedError::InvalidDimensions);
        },
    };
    let ghost g0 = grid@;
    grid.set_cells(coords.as_slice());
    proof {
        crate::laws::lemma_set_cells_exact(g0, coords@);
        assert forall|r2: int, c2: int|
            0 <= r2 < seed_rows(text@) && 0 <= c2 < seed_cols(text@) implies #[trigger] grid@.cell(
            r2,
            c2,
        ) == seed_cell(text@, r2, c2) by {
            assert(g0.with_live(coords@).cell(r2, c2) == coords@.contains((r2 as u32, c2 as u32)));
            if coords@.contains((r2 as u32, c2 as u32)) {
                let t = choose|t: int|
                    0 <= t < coords@.len() && coords@[t] == (r2 as u32, c2 as u32);
                assert(tl[coords@[t].0 + 1][coords@[t].1 as int] == 49);
            }
        }
    }
    Ok(grid)
}

/// The decimal numeral of `n`, most significant digit first.
pub open spec fn dec_str(n: int) -> Seq<u8>
    decreases n,
{
    if n < 0 {
        Seq::empty()
    } else if n < 10 {
        seq![(48 + n) as u8]
    } else {
        dec_str(n / 10).push((48 + n % 10) as u8)
    }
}

proof fn lemma_dec_str_val(n: int)
    requires
        0 <= n,
    ensures
        is_numeral(dec_str(n)),
        numeral_val(dec_str(n)) == n,
    decreases n,
{
    assert(numeral_val(Seq::<u8>::empty()) == 0);
    if n < 10 {
        assert(dec_str(n).drop_last() =~= Seq::<u8>::empty());
        assert(dec_str(n).last() == (48 + n) as u8);
        assert((48 + n) as u8 == 48 + n);
    } else {
        lemma_dec_str_val(n / 10);
        lemma_fundamental_div_mod(n, 10);
        assert(dec_str(n).drop_last() =~= dec_str(n / 10));
        assert(0 <= n % 10 < 10);
        assert(dec_str(n).last() == (48 + n % 10) as u8);
        assert((48 + n % 10) as u8 == 48 + n % 10);
    }
}

/// The digit line a grid row writes: `1` for a live cell, `0` for a dead one.
pub open spec fn seed_line_of(g: GridModel, r: int) -> Seq<u8> {
    Seq::new(
        g.width,
        |c: int| if g.cell(r, c) {
            49u8
        } else {
            48u8
        },
    )
}

/// The body lines from row `r` on, each closed by a newline.
pub open spec fn seed_body_from(g: GridModel, r: int) -> Seq<u8>
    decreases g.height - r,
{
    if r < 0 || r >= g.height {
        Seq::empty()
    } else {
        seed_line_of(g, r) + seq![10u8] + seed_body_from(g, r + 1)
    }
}

/// The seed text that describes a grid: `<rows>x<cols>`, then one digit
/// line per row.
pub open spec fn seed_text_of(g: GridModel) -> Seq<u8> {
    dec_str(g.height as int) + seq![120u8] + dec_str(g.width as int) + seq![10u8] + seed_body_from(
        g,
        0,
    )
}

/// Splitting a text that starts with a newline-free line and its newline
/// yields that line and then the split of the rest.
proof fn lemma_split_prepend_line(a: Seq<u8>, rest: Seq<u8>)
    requires
        forall|i: int| 0 <= i < a.len() ==> a[i] != 10,
    ensures
        split_lines(a + seq![10u8] + rest) == seq![a] + split_lines(rest),
    decreases a.len(),
{
    let t = a + seq![10u8] + rest;
    if a.len() == 0 {
        assert(t[0] == 10);
        assert(t.subrange(1, t.len() as int) =~= rest);
        assert(split_lines(t) =~~= seq![a] + split_lines(rest));
    } else {
        assert(t[0] == a[0]);
        let a1 = a.subrange(1, a.len() as int);
        assert(t.subrange(1, t.len() as int) =~= a1 + seq![10u8] + rest);
        lemma_split_prepend_line(a1, rest);
        lemma_split_nonempty(rest);
        assert(split_lines(t) =~~= seq![a] + split_lines(rest));
    }
}

proof fn lemma_body_split(g: GridModel, r: int)
    requires
        g.wf(),
        0 <= r <= g.height,
    ensures
        split_lines(seed_body_from(g, r)) == Seq::new(
            (g.height - r) as nat,
            |i: int| seed_line_of(g, r + i),
        ).push(Seq::<u8>::empty()),
    decreases g.height - r,
{
    if r == g.height {
        assert(split_lines(seed_body_from(g, r)) =~~= Seq::new(
            (g.height - r) as nat,
            |i: int| seed_line_of(g, r + i),
        ).push(Seq::<u8>::empty()));
    } else {
        lemma_body_split(g, r + 1);
        lemma_split_prepend_line(seed_line_of(g, r), seed_body_from(g, r + 1));
        assert(split_lines(seed_body_from(g, r)) =~~= Seq::new(
            (g.height - r) as nat,
            |i: int| seed_line_of(g, r + i),
        ).push(Seq::<u8>::empty()));
    }
}

/// Writing a grid as a seed text and reading it back is the identity: the
/// written text is well formed, declares the grid's dimensions, and marks
/// exactly the grid's live cells. Together with the contract of
/// [`parse_seed`], parsing the written text rebuilds the same live-cell set.
pub proof fn lemma_seed_round_trip(g: GridModel)
    requires
        g.wf(),
        g.width * g.height <= u32::MAX as nat,
    ensures
        seed_ok(seed_text_of(g)),
        seed_rows(seed_text_of(g)) == g.height,
        seed_cols(seed_text_of(g)) == g.width,
        forall|r: int, c: int|
            g.in_bounds(r, c) ==> seed_cell(seed_text_of(g), r, c) == g.cell(r, c),
{
    let t = seed_text_of(g);
    let hd = dec_str(g.height as int) + seq![120u8] + dec_str(g.width as int);
    lemma_dec_str_val(g.height as int);
    lemma_dec_str_val(g.width as int);
    assert forall|i: int| 0 <= i < hd.len() implies hd[i] != 10 by {
        if i < dec_str(g.height as int).len() {
            assert(is_digit(dec_str(g.height as int)[i]));
        } else if i > dec_str(g.height as int).len() {
            assert(is_digit(dec_str(g.width as int)[i - dec_str(g.height as int).len() - 1]));
        }
    }
    assert(t =~= hd + seq![10u8] + seed_body_from(g, 0));
    lemma_split_prepend_line(hd, seed_body_from(g, 0));
    lemma_body_split(g, 0);
    let body_lines = Seq::new(g.height, |i: int| seed_line_of(g, 0 + i));
    assert(split_lines(t) == seq![hd] + body_lines.push(Seq::<u8>::empty()));
    assert(split_lines(t).last() == Seq::<u8>::empty());
    assert(text_lines(t) =~= seq![hd] + body_lines);
    assert(text_lines(t).len() == g.height + 1);
    assert(text_lines(t)[0] == hd);
    let k = dec_str(g.height as int).len() as int;
    assert(hd[k] == 120);
    assert(hd.subrange(0, k) =~= dec_str(g.height as int));
    assert(hd.subrange(k + 1, hd.len() as int) =~= dec_str(g.width as int));
    assert(header_split_at(hd, k));
    let kc = choose|k2: int| header_split_at(hd, k2);
    lemma_header_unique(hd, k, kc);
    assert(seed_rows(t) == g.height);
    assert(seed_cols(t) == g.width);
    assert((g.height as int) * (g.width as int) == (g.width as int) * (g.height
        as int)) by (nonlinear_arith);
    assert(seed_dims_ok(t));
    assert forall|i: int| 1 <= i < text_lines(t).len() implies seed_line_ok(
        #[trigger] text_lines(t)[i],
        seed_cols(t),
    ) by {
        assert(text_lines(t)[i] == body_lines[i - 1]);
        assert(body_lines[i - 1] == seed_line_of(g, i - 1));
    }
    assert forall|r: int, c: int| g.in_bounds(r, c) implies seed_cell(t, r, c) == g.cell(r, c) by {
        assert(text_lines(t)[r + 1] == seed_line_of(g, r));
        assert(seed_line_of(g, r)[c] == (if g.cell(r, c) {
            49u8
        } else {
            48u8
        }));
    }
}

} // verus!
