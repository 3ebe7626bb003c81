use vstd::prelude::*;

verus! {

use crate::error::Error;

/// A decoded pattern: the extent the header declared (`0` means "infer from
/// content") and the live-cell coordinates the body emitted, in row-major
/// emission order.
pub struct Pattern {
    pub width: usize,
    pub height: usize,
    pub cells: Vec<(usize, usize)>,
}

/// Whitespace that the format treats as insignificant.
pub open spec fn is_ws(c: u8) -> bool {
    c == 32 || c == 9 || c == 10 || c == 13
}

/// An ASCII decimal digit.
pub open spec fn is_digit(c: u8) -> bool {
    48 <= c <= 57
}

/// The index of the first byte of the first line that is not a comment
/// line, scanning from `i`; `in_comment` says whether `i` is inside a
/// comment line.
pub open spec fn content_start_from(s: Seq<u8>, i: int, in_comment: bool) -> int
    decreases s.len() - i,
{
    if i < 0 || i >= s.len() {
        s.len() as int
    } else if in_comment {
        if s[i] == 10 {
            content_start_from(s, i + 1, false)
        } else {
            content_start_from(s, i + 1, true)
        }
    } else if s[i] == 35 {
        content_start_from(s, i + 1, true)
    } else {
        i
    }
}

/// Where the header line starts: comment lines (leading `#`) are skipped.
pub open spec fn content_start(s: Seq<u8>) -> int {
    content_start_from(s, 0, false)
}

/// The index of the line break that ends the line starting at `i`, or the
/// end of the input.
pub open spec fn line_end(s: Seq<u8>, i: int) -> int
    decreases s.len() - i,
{
    if i < 0 || i >= s.len() {
        s.len() as int
    } else if s[i] == 10 {
        i
    } else {
        line_end(s, i + 1)
    }
}

/// The first index at or after `i`, below `e`, holding non-whitespace.
pub open spec fn skip_ws_to(s: Seq<u8>, i: int, e: int) -> int
    decreases e - i,
{
    if 0 <= i < e && i < s.len() && is_ws(s[i]) {
        skip_ws_to(s, i + 1, e)
    } else {
        i
    }
}

/// The first index at or after `i`, below `e`, holding a non-digit.
pub open spec fn digits_end(s: Seq<u8>, i: int, e: int) -> int
    decreases e - i,
{
    if 0 <= i < e && i < s.len() && is_digit(s[i]) {
        digits_end(s, i + 1, e)
    } else {
        i
    }
}

/// The value of the decimal digit run `s[i .. j)`.
pub open spec fn digits_val(s: Seq<u8>, i: int, j: int) -> int
    decreases j - i,
{
    if j <= i {
        0
    } else {
        digits_val(s, i, j - 1) * 10 + (s[j - 1] - 48)
    }
}

/// What the header line `s[h .. e)` declares: `x = <width>, y = <height>`,
/// with arbitrary insignificant whitespace, optionally followed by one comma
/// and further header fields, which are ignored. `None` when the line does
/// not have that shape or a declared extent does not fit the machine.
pub open spec fn spec_header(s: Seq<u8>, h: int, e: int) -> Option<(usize, usize)> {
    let i0 = skip_ws_to(s, h, e);
    if !(i0 < e && s[i0] == 120) {
        None
    } else {
        let i1 = skip_ws_to(s, i0 + 1, e);
        if !(i1 < e && s[i1] == 61) {
            None
        } else {
            let i2 = skip_ws_to(s, i1 + 1, e);
            let i3 = digits_end(s, i2, e);
            if i3 <= i2 || digits_val(s, i2, i3) > usize::MAX as int {
                None
            } else {
                let w = digits_val(s, i2, i3);
                let i4 = skip_ws_to(s, i3, e);
                if !(i4 < e && s[i4] == 44) {
                    None
                } else {
                    let i5 = skip_ws_to(s, i4 + 1, e);
                    if !(i5 < e && s[i5] == 121) {
                        None
                    } else {
                        let i6 = skip_ws_to(s, i5 + 1, e);
                        if !(i6 < e && s[i6] == 61) {
                            None
                        } else {
                            let i7 = skip_ws_to(s, i6 + 1, e);
                            let i8 = digits_end(s, i7, e);
                            if i8 <= i7 || digits_val(s, i7, i8) > usize::MAX as int {
                                None
                            } else {
                                let hh = digits_val(s, i7, i8);
                                let i9 = skip_ws_to(s, i8, e);
                                if i9 == e || (i9 < e && s[i9] == 44) {
                                    Some((w as usize, hh as usize))
                                } else {
                                    None
                                }
                            }
                        }
                    }
                }
            }
        }
    }
}

/// The coordinates of a run of `cnt` live cells starting at `(col, row)`.
pub open spec fn run_cells(row: int, col: int, cnt: int) -> Seq<(usize, usize)> {
    Seq::new(cnt as nat, |k: int| (((col + k) as usize), (row as usize)))
}

/// `pre` prepended to a decode that may have failed.
pub open spec fn opt_prepend(pre: Seq<(usize, usize)>, o: Option<Seq<(usize, usize)>>) -> Option<
    Seq<(usize, usize)>,
> {
    match o {
        Option::None => None,
        Option::Some(rest) => Some(pre + rest),
    }
}

/// The exec-side pending run count, as the spec sees it.
pub open spec fn spec_pend(p: Option<usize>) -> Option<int> {
    match p {
        Option::None => None,
        Option::Some(v) => Some(v as int),
    }
}

/// The live cells the body `s[i ..]` emits, scanned one byte at a time with
/// the cursor at `(row, col)` and `pend` holding the digits read so far of a
/// run count. A digit extends the pending count; whitespace is skipped; the
/// terminator ends the scan, but is malformed while a count is pending; an
/// alive tag emits its run and advances the column; a dead tag advances the
/// column; a row-end tag advances the row and resets the column. `None` on a
/// byte outside the format, on a cursor or count beyond the machine, or when
/// the input ends before the terminator.
pub open spec fn spec_body(s: Seq<u8>, i: int, pend: Option<int>, row: int, col: int) -> Option<
    Seq<(usize, usize)>,
>
    decreases s.len() - i,
{
    if i < 0 || i >= s.len() {
        None
    } else {
        let c = s[i];
        if is_digit(c) {
            let v = match pend {
                Option::None => 0,
                Option::Some(p) => p,
            };
            let p2 = v * 10 + (c - 48);
            if p2 <= usize::MAX as int {
                spec_body(s, i + 1, Some(p2), row, col)
            } else {
                None
            }
        } else if is_ws(c) {
            spec_body(s, i + 1, pend, row, col)
        } else if c == 33 {
            match pend {
                Option::None => Some(Seq::empty()),
                Option::Some(_) => None,
            }
        } else {
            let cnt = match pend {
                Option::None => 1,
                Option::Some(p) => p,
            };
            if c == 111 {
                if col + cnt <= usize::MAX as int {
                    opt_prepend(run_cells(row, col, cnt), spec_body(s, i + 1, None, row, col + cnt))
                } else {
                    None
                }
            } else if c == 98 {
                if col + cnt <= usize::MAX as int {
                    spec_body(s, i + 1, None, row, col + cnt)
                } else {
                    None
                }
            } else if c == 36 {
                if row + cnt <= usize::MAX as int {
                    spec_body(s, i + 1, None, row + cnt, 0)
                } else {
                    None
                }
            } else {
                None
            }
        }
    }
}

/// What decoding the whole input yields: the declared extent and the emitted
/// live cells, or `None` when the text is malformed.
pub open spec fn spec_decode(s: Seq<u8>) -> Option<(usize, usize, Seq<(usize, usize)>)> {
    let h = content_start(s);
    let e = line_end(s, h);
    match spec_header(s, h, e) {
        Option::None => None,
        Option::Some(wh) => match spec_body(s, e + 1, None, 0, 0) {
            Option::None => None,
            Option::Some(cells) => Some((wh.0, wh.1, cells)),
        },
    }
}

fn byte_is_ws(c: u8) -> (r: bool)
    ensures
        r == is_ws(c),
{
    c == 32 || c == 9 || c == 10 || c == 13
}

fn byte_is_digit(c: u8) -> (r: bool)
    ensures
        r == is_digit(c),
{
    48 <= c && c <= 57
}

/// Prepending onto a prepended decode associates.
proof fn lemma_opt_prepend_assoc(
    a: Seq<(usize, usize)>,
    b: Seq<(usize, usize)>,
    o: Option<Seq<(usize, usize)>>,
)
    ensures
        opt_prepend(a, opt_prepend(b, o)) == opt_prepend(a + b, o),
{
    match o {
        Option::None => {
        },
        Option::Some(rest) => {
            assert(a + (b + rest) =~= (a + b) + rest);
        },
    }
}

/// Prepending nothing changes nothing.
proof fn lemma_opt_prepend_empty(o: Option<Seq<(usize, usize)>>)
    ensures
        opt_prepend(Seq::empty(), o) == o,
{
    match o {
        Option::None => {
        },
        Option::Some(rest) => {
            assert(Seq::empty() + rest =~= rest);
        },
    }
}

/// A digit run ends no earlier than it starts, and holds digits throughout.
proof fn lemma_digits_end_props(s: Seq<u8>, i: int, e: int)
    ensures
        i <= digits_end(s, i, e),
        forall|m: int| i <= m < digits_end(s, i, e) ==> is_digit(#[trigger] s[m]),
    decreases e - i,
{
    if 0 <= i < e && i < s.len() && is_digit(s[i]) {
        lemma_digits_end_props(s, i + 1, e);
    }
}

/// The value of a digit run is never negative.
proof fn lemma_dv_nonneg(s: Seq<u8>, i: int, j: int)
    requires
        forall|m: int| i <= m < j ==> is_digit(#[trigger] s[m]),
    ensures
        digits_val(s, i, j) >= 0,
    decreases j - i,
{
    if j > i {
        lemma_dv_nonneg(s, i, j - 1);
    }
}

/// Extending a digit run never shrinks its value.
proof fn lemma_dv_mono(s: Seq<u8>, i: int, j: int, k: int)
    requires
        i <= j <= k,
        forall|m: int| i <= m < k ==> is_digit(#[trigger] s[m]),
    ensures
        digits_val(s, i, j) <= digits_val(s, i, k),
    decreases k - j,
{
    if j < k {
        lemma_dv_mono(s, i, j, k - 1);
        lemma_dv_nonneg(s, i, (k - 1) as int);
    }
}

fn skip_ws(input: &[u8], from: usize, e: usize) -> (r: usize)
    requires
        from <= e <= input@.len(),
    ensures
        r == skip_ws_to(input@, from as int, e as int),
        from <= r <= e,
{
    let mut i = from;
    while i < e && byte_is_ws(input[i])
        invariant
            from <= i <= e,
            e <= input@.len(),
            skip_ws_to(input@, from as int, e as int) == skip_ws_to(input@, i as int, e as int),
        decreases e - i,
    {
        i = i + 1;
    }
    i
}

/// Reads one decimal run count; malformed when no digit is present or the
/// value does not fit the machine.
fn scan_num(input: &[u8], from: usize, e: usize) -> (r: Result<(usize, usize), Error>)
    requires
        from <= e <= input@.len(),
    ensures
        match r {
            Ok(p) => {
                &&& p.1 == digits_end(input@, from as int, e as int)
                &&& from < p.1 <= e
                &&& p.0 == digits_val(input@, from as int, p.1 as int)
            },
            Err(er) => {
                &&& er == Error::MalformedPattern
                &&& (digits_end(input@, from as int, e as int) == from || digits_val(
                    input@,
                    from as int,
                    digits_end(input@, from as int, e as int),
                ) > usize::MAX as int)
            },
        },
{
    let mut i = from;
    let mut v: usize = 0;
    while i < e && byte_is_digit(input[i])
        invariant
            from <= i <= e,
            e <= input@.len(),
            digits_end(input@, from as int, e as int) == digits_end(input@, i as int, e as int),
            v == digits_val(input@, from as int, i as int),
            forall|m: int| from <= m < i ==> is_digit(#[trigger] input@[m]),
        decreases e - i,
    {
        let d = (input[i] - 48) as usize;
        let t = match v.checked_mul(10) {
            Some(t) => t,
            None => {
                proof {
                    lemma_num_overflow(input@, from as int, i as int, e as int);
                }
                return Err(Error::MalformedPattern);
            },
        };
        let v2 = match t.checked_add(d) {
            Some(u) => u,
            None => {
                proof {
                    lemma_num_overflow(input@, from as int, i as int, e as int);
                }
                return Err(Error::MalformedPattern);
            },
        };
        v = v2;
        i = i + 1;
    }
    if i == from {
        Err(Error::MalformedPattern)
    } else {
        Ok((v, i))
    }
}

/// When the digits read so far already overflow, the whole run overflows.
proof fn lemma_num_overflow(s: Seq<u8>, from: int, i: int, e: int)
    requires
        from <= i < e,
        e <= s.len(),
        is_digit(s[i]),
        forall|m: int| from <= m < i ==> is_digit(#[trigger] s[m]),
        digits_end(s, from, e) == digits_end(s, i, e),
        digits_val(s, from, i) * 10 + (s[i] - 48) > usize::MAX as int,
    ensures
        digits_val(s, from, digits_end(s, from, e)) > usize::MAX as int,
{
    lemma_digits_end_props(s, i + 1, e);
    assert(digits_end(s, i, e) == digits_end(s, i + 1, e));
    assert(digits_val(s, from, i + 1) == digits_val(s, from, i) * 10 + (s[i] - 48));
    lemma_dv_mono(s, from, i + 1, digits_end(s, from, e));
}

/// Parses the header line `input[h .. e)`; the errors are exactly the inputs
/// on which `spec_header` fails.
fn parse_header(input: &[u8], h: usize, e: usize) -> (r: Result<(usize, usize), Error>)
    requires
        h <= e <= input@.len(),
    ensures
        match r {
            Ok(p) => spec_header(input@, h as int, e as int) == Some((p.0, p.1)),
            Err(er) => er == Error::MalformedPattern && spec_header(input@, h as int, e as int)
                is None,
        },
{
    let i0 = skip_ws(input, h, e);
    if !(i0 < e && input[i0] == 120) {
        return Err(Error::MalformedPattern);
    }
    let i1 = skip_ws(input, i0 + 1, e);
    if !(i1 < e && input[i1] == 61) {
        return Err(Error::MalformedPattern);
    }
    let i2 = skip_ws(input, i1 + 1, e);
    let wp = match scan_num(input, i2, e) {
        Ok(p) => p,
        Err(er) => {
            return Err(er);
        },
    };
    let w = wp.0;
    let i4 = skip_ws(input, wp.1, e);
    if !(i4 < e && input[i4] == 44) {
        return Err(Error::MalformedPattern);
    }
    let i5 = skip_ws(input, i4 + 1, e);
    if !(i5 < e && input[i5] == 121) {
        return Err(Error::MalformedPattern);
    }
    let i6 = skip_ws(input, i5 + 1, e);
    if !(i6 < e && input[i6] == 61) {
        return Err(Error::MalformedPattern);
    }
    let i7 = skip_ws(input, i6 + 1, e);
    let hp = match scan_num(input, i7, e) {
        Ok(p) => p,
        Err(er) => {
            return Err(er);
        },
    };
    let hh = hp.0;
    let i9 = skip_ws(input, hp.1, e);
    if i9 == e || input[i9] == 44 {
        Ok((w, hh))
    } else {
        Err(Error::MalformedPattern)
    }
}

/// Decodes the complete textual contents of a pattern file: optional
/// comment lines, a header line declaring the extent, then a run-length
/// encoded body ending in the terminator tag. `MalformedPattern` if and
/// only if the text has no other reading: the result is pinned to
/// `spec_decode`.
pub fn decode(input: &[u8]) -> (r: Result<Pattern, Error>)
    ensures
        match r {
            Ok(p) => spec_decode(input@) == Some((p.width, p.height, p.cells@)),
            Err(e) => e == Error::MalformedPattern && spec_decode(input@) is None,
        },
{
    let n = input.len();
    // Skip comment lines to find the header line.
    let mut i: usize = 0;
    let mut inc = false;
    while i < n && (inc || input[i] == 35)
        invariant
            n == input@.len(),
            i <= n,
            content_start(input@) == content_start_from(input@, i as int, inc),
        decreases n - i,
    {
        if inc {
            if input[i] == 10 {
                inc = false;
            }
        } else {
            inc = true;
        }
        i = i + 1;
    }
    let h = i;
    proof {
        assert(content_start(input@) == h);
    }
    // Find the end of the header line.
    let mut e: usize = h;
    while e < n && input[e] != 10
        invariant
            h <= e <= n,
            n == input@.len(),
            line_end(input@, h as int) == line_end(input@, e as int),
        decreases n - e,
    {
        e = e + 1;
    }
    proof {
        assert(line_end(input@, h as int) == e);
    }
    let wh = match parse_header(input, h, e) {
        Ok(p) => p,
        Err(er) => {
            return Err(er);
        },
    };
    let w = wh.0;
    let hh = wh.1;
    if e >= n {
        // The header line is the whole input: no body, no terminator.
        return Err(Error::MalformedPattern);
    }
    let ghost start: int = e as int + 1;
    let mut j: usize = e + 1;
    let mut pend: Option<usize> = None;
    let mut row: usize = 0;
    let mut col: usize = 0;
    let mut cells: Vec<(usize, usize)> = Vec::new();
    proof {
        lemma_opt_prepend_empty(spec_body(input@, start, None, 0, 0));
        assert(cells@ =~= Seq::<(usize, usize)>::empty());
    }
    while j < n
        invariant
            n == input@.len(),
            e < n,
            start == e + 1,
            j <= n,
            content_start(input@) == h,
            line_end(input@, h as int) == e,
            spec_header(input@, h as int, e as int) == Some((w, hh)),
            spec_body(input@, start, None, 0, 0) == opt_prepend(
                cells@,
                spec_body(input@, j as int, spec_pend(pend), row as int, col as int),
            ),
        decreases n - j,
    {
        let c = input[j];
        if byte_is_digit(c) {
            let v: usize = match pend {
                Some(p) => p,
                None => 0,
            };
            let d = (c - 48) as usize;
            let t = match v.checked_mul(10) {
                Some(t) => t,
                None => {
                    return Err(Error::MalformedPattern);
                },
            };
            let p2 = match t.checked_add(d) {
                Some(u) => u,
                None => {
                    return Err(Error::MalformedPattern);
                },
            };
            pend = Some(p2);
        } else if byte_is_ws(c) {
        } else if c == 33 {
            match pend {
                None => {
                    proof {
                        assert(cells@ + Seq::<(usize, usize)>::empty() =~= cells@);
                    }
                    return Ok(Pattern { width: w, height: hh, cells });
                },
                Some(_) => {
                    return Err(Error::MalformedPattern);
                },
            }
        } else {
            let cnt: usize = match pend {
                Some(p) => p,
                None => 1,
            };
            pend = None;
            if c == 111 {
                let nc = match col.checked_add(cnt) {
                    Some(t) => t,
                    None => {
                        return Err(Error::MalformedPattern);
                    },
                };
                let ghost cells0 = cells@;
                let mut k: usize = 0;
                while k < cnt
                    invariant
                        k <= cnt,
                        col + cnt <= usize::MAX,
                        cells@ == cells0 + run_cells(row as int, col as int, k as int),
                    decreases cnt - k,
                {
                    cells.push((col + k, row));
                    proof {
                        assert(run_cells(row as int, col as int, (k + 1) as int) =~= run_cells(
                            row as int,
                            col as int,
                            k as int,
                        ).push((((col + k) as usize), row)));
                        assert(cells@ =~= cells0 + run_cells(row as int, col as int, (k + 1) as int));
                    }
                    k = k + 1;
                }
                proof {
                    lemma_opt_prepend_assoc(
                        cells0,
                        run_cells(row as int, col as int, cnt as int),
                        spec_body(input@, j as int + 1, None, row as int, col as int + cnt as int),
                    );
                }
                col = nc;
            } else if c == 98 {
                col = match col.checked_add(cnt) {
                    Some(t) => t,
                    None => {
                        return Err(Error::MalformedPattern);
                    },
                };
            } else if c == 36 {
                row = match row.checked_add(cnt) {
                    Some(t) => t,
                    None => {
                        return Err(Error::MalformedPattern);
                    },
                };
                col = 0;
            } else {
                return Err(Error::MalformedPattern);
            }
        }
        j = j + 1;
    }
    // The body ended without the terminator tag.
    Err(Error::MalformedPattern)
}

} // verus!
