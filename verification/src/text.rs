use vstd::prelude::*;

use crate::bindings::push_char;

verus! {

// ---------------------------------------------------------------------------
// Decimal numbers
// ---------------------------------------------------------------------------

/// The character of a decimal digit `d` (`0 <= d < 10`).
pub open spec fn digit_char(d: int) -> char {
    (48 + d) as char
}

/// The decimal representation of `n`, most significant digit first, without leading zeros.
pub open spec fn decimal(n: nat) -> Seq<char>
    decreases n,
{
    if n < 10 {
        seq![digit_char(n as int)]
    } else {
        decimal(n / 10).push(digit_char((n % 10) as int))
    }
}

/// The decimal representation of a signed integer: a `-` in front of the magnitude when negative.
pub open spec fn signed_decimal(n: int) -> Seq<char> {
    if n < 0 {
        seq!['-'] + decimal((-n) as nat)
    } else {
        decimal(n as nat)
    }
}

fn digit(d: u64) -> (c: char)
    requires
        d < 10,
    ensures
        c == digit_char(d as int),
{
    let b: u8 = 48u8 + (d as u8);
    b as char
}

/// The number that a string of decimal digits stands for.
pub open spec fn digits_number(s: Seq<char>) -> int
    decreases s.len(),
{
    if s.len() == 0 {
        0
    } else {
        digits_number(s.drop_last()) * 10 + (s.last() as int - '0' as int)
    }
}

proof fn lemma_digit_char(d: int)
    requires
        0 <= d < 10,
    ensures
        digit_char(d) as int == 48 + d,
        '0' <= digit_char(d) <= '9',
{
}

/// The decimal representation of `n` is made of digits, has no leading zero, and stands for
/// `n`.
pub proof fn lemma_decimal_reads_back(n: nat)
    ensures
        decimal(n).len() >= 1,
        decimal(n).len() == 1 <==> n < 10,
        forall|k: int| 0 <= k < decimal(n).len() ==> '0' <= #[trigger] decimal(n)[k] <= '9',
        decimal(n).len() > 1 ==> decimal(n)[0] != '0',
        digits_number(decimal(n)) == n,
    decreases n,
{
    assert('0' as int == 48);
    if n >= 10 {
        lemma_decimal_reads_back(n / 10);
        lemma_digit_char((n % 10) as int);
        let front = decimal(n / 10);
        assert(decimal(n).drop_last() =~= front);
        assert(decimal(n)[0] == front[0]);
        assert forall|k: int| 0 <= k < decimal(n).len() implies '0' <= #[trigger] decimal(n)[k] <= '9' by {
            if k < front.len() {
                assert(decimal(n)[k] == front[k]);
            }
        }
        if front.len() == 1 {
            assert(n / 10 >= 1);
            assert(n / 10 < 10);
            lemma_digit_char((n / 10) as int);
            assert(front[0] == digit_char((n / 10) as int));
        }
        assert(digits_number(decimal(n)) == digits_number(front) * 10 + (digit_char((n % 10) as int) as int - 48));
    } else {
        lemma_digit_char(n as int);
        assert(decimal(n).drop_last() =~= Seq::<char>::empty());
        assert(digits_number(decimal(n)) == digits_number(Seq::<char>::empty()) * 10 + (digit_char(n as int) as int - 48));
    }
}

/// Appends the decimal representation of `n` to `out`.
pub fn push_decimal(out: &mut String, n: u64)
    ensures
        final(out)@ == old(out)@ + decimal(n as nat),
    decreases n,
{
    if n >= 10 {
        push_decimal(out, n / 10);
    }
    push_char(out, digit(n % 10));
    proof {
        if n < 10 {
            assert(old(out)@ + decimal(n as nat) =~= old(out)@.push(digit_char(n as int)));
        } else {
            assert(old(out)@ + decimal(n as nat) =~= (old(out)@ + decimal((n / 10) as nat)).push(
                digit_char((n % 10) as int),
            ));
        }
    }
}

/// Appends the decimal representation of the signed `n` to `out`.
pub fn push_signed_decimal(out: &mut String, n: i64)
    ensures
        final(out)@ == old(out)@ + signed_decimal(n as int),
{
    if n < 0 {
        push_char(out, '-');
        let magnitude: u64 = if n == i64::MIN {
            9223372036854775808u64
        } else {
            (-n) as u64
        };
        push_decimal(out, magnitude);
        assert(old(out)@ + signed_decimal(n as int) =~= old(out)@.push('-') + decimal(
            magnitude as nat,
        ));
    } else {
        push_decimal(out, n as u64);
    }
}

/// The decimal representation of `n` as a new string.
pub fn decimal_string(n: u64) -> (s: String)
    ensures
        s@ == decimal(n as nat),
{
    let mut s = String::new();
    push_decimal(&mut s, n);
    assert(s@ =~= decimal(n as nat));
    s
}

// ---------------------------------------------------------------------------
// Characters and strings
// ---------------------------------------------------------------------------

/// Collects the characters of `s` into a vector.
pub fn chars_of(s: &str) -> (v: Vec<char>)
    ensures
        v@ == s@,
{
    let mut v: Vec<char> = Vec::new();
    for c in it: s.chars()
        invariant
            v@ == it.seq().take(it.index() as int),
    {
        v.push(c);
    }
    v
}

/// Appends `v[lo..hi]` to `out`.
pub fn push_chars(out: &mut String, v: &Vec<char>, lo: usize, hi: usize)
    requires
        lo <= hi <= v@.len(),
    ensures
        final(out)@ == old(out)@ + v@.subrange(lo as int, hi as int),
{
    let mut i = lo;
    while i < hi
        invariant
            lo <= i <= hi <= v@.len(),
            out@ == old(out)@ + v@.subrange(lo as int, i as int),
        decreases hi - i,
    {
        push_char(out, v[i]);
        i = i + 1;
        assert(v@.subrange(lo as int, i as int) =~= v@.subrange(lo as int, i - 1).push(v@[i - 1]));
    }
}

/// Appends all of `s` to `out`.
pub fn push_str(out: &mut String, s: &str)
    ensures
        final(out)@ == old(out)@ + s@,
{
    let v = chars_of(s);
    push_chars(out, &v, 0, v.len());
    assert(v@.subrange(0, v@.len() as int) =~= v@);
}

/// A new string holding `v[lo..hi]`.
pub fn string_of(v: &Vec<char>, lo: usize, hi: usize) -> (s: String)
    requires
        lo <= hi <= v@.len(),
    ensures
        s@ == v@.subrange(lo as int, hi as int),
{
    let mut s = String::new();
    push_chars(&mut s, v, lo, hi);
    assert(s@ =~= v@.subrange(lo as int, hi as int));
    s
}

/// A new string holding a copy of `s`.
pub fn copy_str(s: &str) -> (r: String)
    ensures
        r@ == s@,
{
    let mut r = String::new();
    push_str(&mut r, s);
    assert(r@ =~= s@);
    r
}

/// Whether two strings hold the same characters.
pub fn same_text(a: &str, b: &str) -> (r: bool)
    ensures
        r == (a@ == b@),
{
    let x = chars_of(a);
    let y = chars_of(b);
    if x.len() != y.len() {
        return false;
    }
    let mut i: usize = 0;
    while i < x.len()
        invariant
            x@ == a@,
            y@ == b@,
            x@.len() == y@.len(),
            i <= x@.len(),
            forall|k: int| 0 <= k < i ==> x@[k] == y@[k],
        decreases x@.len() - i,
    {
        if x[i] != y[i] {
            return false;
        }
        i = i + 1;
    }
    assert(x@ =~= y@);
    true
}

/// `n` space characters.
pub open spec fn spaces(n: nat) -> Seq<char> {
    Seq::new(n, |i: int| ' ')
}

/// `n` copies of the character `c`.
pub open spec fn repeated(c: char, n: nat) -> Seq<char> {
    Seq::new(n, |i: int| c)
}

/// A string of `n` copies of `c`.
pub fn repeat_char(c: char, n: usize) -> (s: String)
    ensures
        s@ == repeated(c, n as nat),
{
    let mut s = String::new();
    let mut i: usize = 0;
    while i < n
        invariant
            i <= n,
            s@ == repeated(c, i as nat),
        decreases n - i,
    {
        push_char(&mut s, c);
        i = i + 1;
        assert(s@ =~= repeated(c, i as nat));
    }
    s
}

// ---------------------------------------------------------------------------
// Whitespace and trimming
// ---------------------------------------------------------------------------

/// The characters with the Unicode `White_Space` property, which is what `char::is_whitespace`
/// and `str::trim` go by.
pub open spec fn is_space(c: char) -> bool {
    ||| c == ' '
    ||| ('\t' <= c && c <= '\r')
    ||| c == '\u{85}'
    ||| c == '\u{a0}'
    ||| c == '\u{1680}'
    ||| ('\u{2000}' <= c && c <= '\u{200a}')
    ||| c == '\u{2028}'
    ||| c == '\u{2029}'
    ||| c == '\u{202f}'
    ||| c == '\u{205f}'
    ||| c == '\u{3000}'
}

/// Whether `c` is white space.
pub fn space_char(c: char) -> (r: bool)
    ensures
        r == is_space(c),
{
    c == ' ' || ('\t' <= c && c <= '\r') || c == '\u{85}' || c == '\u{a0}' || c == '\u{1680}'
        || ('\u{2000}' <= c && c <= '\u{200a}') || c == '\u{2028}' || c == '\u{2029}' || c
        == '\u{202f}' || c == '\u{205f}' || c == '\u{3000}'
}

/// `s` without its leading white space.
pub open spec fn trim_start(s: Seq<char>) -> Seq<char>
    decreases s.len(),
{
    if s.len() > 0 && is_space(s[0]) {
        trim_start(s.subrange(1, s.len() as int))
    } else {
        s
    }
}

/// `s` without its trailing white space.
pub open spec fn trim_end(s: Seq<char>) -> Seq<char>
    decreases s.len(),
{
    if s.len() > 0 && is_space(s.last()) {
        trim_end(s.drop_last())
    } else {
        s
    }
}

/// `s` without leading and trailing white space, as `str::trim` gives it.
pub open spec fn trim(s: Seq<char>) -> Seq<char> {
    trim_end(trim_start(s))
}

/// The bounds of `trim(v[lo..hi])` within `v`.
pub fn trim_range(v: &Vec<char>, lo: usize, hi: usize) -> (r: (usize, usize))
    requires
        lo <= hi <= v@.len(),
    ensures
        lo <= r.0 <= r.1 <= hi,
        v@.subrange(r.0 as int, r.1 as int) == trim(v@.subrange(lo as int, hi as int)),
{
    let mut i = lo;
    while i < hi && space_char(v[i])
        invariant
            lo <= i <= hi <= v@.len(),
            trim_start(v@.subrange(lo as int, hi as int)) == trim_start(
                v@.subrange(i as int, hi as int),
            ),
        decreases hi - i,
    {
        assert(v@.subrange(i as int, hi as int).subrange(1, (hi - i) as int) =~= v@.subrange(
            i + 1,
            hi as int,
        ));
        i = i + 1;
    }
    let mut j = hi;
    while j > i && space_char(v[j - 1])
        invariant
            lo <= i <= j <= hi <= v@.len(),
            trim_start(v@.subrange(lo as int, hi as int)) == v@.subrange(i as int, hi as int),
            trim_end(v@.subrange(i as int, hi as int)) == trim_end(
                v@.subrange(i as int, j as int),
            ),
        decreases j - i,
    {
        assert(v@.subrange(i as int, j as int).drop_last() =~= v@.subrange(i as int, j - 1));
        j = j - 1;
    }
    (i, j)
}

/// A trimmed sequence is a piece of the original one.
pub proof fn lemma_trim_is_piece(s: Seq<char>)
    ensures
        exists|a: int, b: int| 0 <= a <= b <= s.len() && trim(s) == s.subrange(a, b),
{
    lemma_trim_start_piece(s);
    let a = s.len() - trim_start(s).len();
    lemma_trim_end_piece(trim_start(s));
    let b = a + trim(s).len();
    assert(trim(s) =~= s.subrange(a, b));
}

proof fn lemma_trim_start_piece(s: Seq<char>)
    ensures
        trim_start(s).len() <= s.len(),
        trim_start(s) == s.subrange(s.len() - trim_start(s).len(), s.len() as int),
    decreases s.len(),
{
    if s.len() > 0 && is_space(s[0]) {
        let t = s.subrange(1, s.len() as int);
        lemma_trim_start_piece(t);
        assert(t.subrange(t.len() - trim_start(t).len(), t.len() as int) =~= s.subrange(
            s.len() - trim_start(t).len(),
            s.len() as int,
        ));
    } else {
        assert(s.subrange(0, s.len() as int) =~= s);
    }
}

proof fn lemma_trim_end_piece(s: Seq<char>)
    ensures
        trim_end(s).len() <= s.len(),
        trim_end(s) == s.subrange(0, trim_end(s).len() as int),
    decreases s.len(),
{
    if s.len() > 0 && is_space(s.last()) {
        let t = s.drop_last();
        lemma_trim_end_piece(t);
        assert(t.subrange(0, trim_end(t).len() as int) =~= s.subrange(0, trim_end(t).len() as int));
    } else {
        assert(s.subrange(0, s.len() as int) =~= s);
    }
}

proof fn lemma_trim_start_drops_space(s: Seq<char>)
    ensures
        forall|k: int| 0 <= k < s.len() - trim_start(s).len() ==> is_space(#[trigger] s[k]),
    decreases s.len(),
{
    lemma_trim_start_piece(s);
    if s.len() > 0 && is_space(s[0]) {
        let t = s.subrange(1, s.len() as int);
        lemma_trim_start_drops_space(t);
        assert forall|k: int| 0 <= k < s.len() - trim_start(s).len() implies is_space(#[trigger] s[k]) by {
            if k > 0 {
                assert(s[k] == t[k - 1]);
            }
        }
    }
}

proof fn lemma_trim_end_drops_space(s: Seq<char>)
    ensures
        forall|k: int| trim_end(s).len() <= k < s.len() ==> is_space(#[trigger] s[k]),
    decreases s.len(),
{
    lemma_trim_end_piece(s);
    if s.len() > 0 && is_space(s.last()) {
        let t = s.drop_last();
        lemma_trim_end_drops_space(t);
        assert forall|k: int| trim_end(s).len() <= k < s.len() implies is_space(#[trigger] s[k]) by {
            if k < s.len() - 1 {
                assert(s[k] == t[k]);
            }
        }
    }
}

/// Trimming removes white space from the two ends and nothing else: the result is the piece
/// of `s` between a run of white space at its start and one at its end.
pub proof fn lemma_trim_drops_only_space(s: Seq<char>)
    ensures
        exists|a: int, b: int|
            0 <= a <= b <= s.len() && trim(s) == #[trigger] s.subrange(a, b) && (forall|k: int|
                0 <= k < a ==> is_space(#[trigger] s[k])) && (forall|k: int| b <= k < s.len() ==> is_space(#[trigger] s[k])),
{
    lemma_trim_start_piece(s);
    lemma_trim_start_drops_space(s);
    let a = s.len() - trim_start(s).len();
    let u = trim_start(s);
    lemma_trim_end_piece(u);
    lemma_trim_end_drops_space(u);
    let b = a + trim(s).len();
    assert(trim(s) =~= s.subrange(a, b));
    assert forall|k: int| b <= k < s.len() implies is_space(#[trigger] s[k]) by {
        assert(s[k] == u[k - a]);
    }
}

/// A trimmed sequence neither starts nor ends with white space.
pub proof fn lemma_trim_edges(s: Seq<char>)
    ensures
        trim(s).len() > 0 ==> !is_space(trim(s)[0]) && !is_space(trim(s).last()),
{
    lemma_trim_start_edge(s);
    lemma_trim_end_edge(trim_start(s));
    lemma_trim_end_piece(trim_start(s));
}

proof fn lemma_trim_start_edge(s: Seq<char>)
    ensures
        trim_start(s).len() > 0 ==> !is_space(trim_start(s)[0]),
    decreases s.len(),
{
    if s.len() > 0 && is_space(s[0]) {
        lemma_trim_start_edge(s.subrange(1, s.len() as int));
    }
}

proof fn lemma_trim_end_edge(s: Seq<char>)
    ensures
        trim_end(s).len() > 0 ==> !is_space(trim_end(s).last()),
    decreases s.len(),
{
    if s.len() > 0 && is_space(s.last()) {
        lemma_trim_end_edge(s.drop_last());
    }
}

// ---------------------------------------------------------------------------
// Line clean-up of rendered text
// ---------------------------------------------------------------------------

/// Adds one finished line to the output: a non-blank line goes in trimmed and followed by a
/// newline; a run of blank lines leaves a single newline.
pub open spec fn flush_line(out: Seq<char>, line: Seq<char>, prev_blank: bool) -> (Seq<char>, bool) {
    let t = trim(line);
    if t.len() == 0 {
        if prev_blank {
            (out, true)
        } else {
            (out.push('\n'), true)
        }
    } else {
        (out + t.push('\n'), false)
    }
}

/// The state after reading `s` line by line: the output so far, the line being read,
/// and whether the last finished line was blank.
pub open spec fn scan_lines(s: Seq<char>) -> (Seq<char>, Seq<char>, bool)
    decreases s.len(),
{
    if s.len() == 0 {
        (Seq::empty(), Seq::empty(), false)
    } else {
        let st = scan_lines(s.drop_last());
        if s.last() == '\n' {
            let fl = flush_line(st.0, st.1, st.2);
            (fl.0, Seq::empty(), fl.1)
        } else {
            (st.0, st.1.push(s.last()), st.2)
        }
    }
}

/// The text with every line trimmed, each run of blank lines collapsed to one, and the
/// whole trimmed. Lines are split at each `\n`: a `\r` before it is white space and goes with
/// the trimming, and the empty line after a final `\n` adds only white space that the last trim
/// removes, so the lines are those of `str::lines`.
pub open spec fn tidy_text(s: Seq<char>) -> Seq<char> {
    let st = scan_lines(s);
    trim(flush_line(st.0, st.1, st.2).0)
}

fn flush_into(out: &mut Vec<char>, line: &Vec<char>, prev_blank: &mut bool)
    ensures
        (final(out)@, *final(prev_blank)) == flush_line(old(out)@, line@, *old(prev_blank)),
{
    let (a, b) = trim_range(line, 0, line.len());
    assert(line@.subrange(0, line@.len() as int) =~= line@);
    if a == b {
        if !*prev_blank {
            out.push('\n');
        }
        *prev_blank = true;
    } else {
        let mut k = a;
        while k < b
            invariant
                a <= k <= b <= line@.len(),
                out@ == old(out)@ + line@.subrange(a as int, k as int),
            decreases b - k,
        {
            out.push(line[k]);
            k = k + 1;
            assert(line@.subrange(a as int, k as int) =~= line@.subrange(a as int, k - 1).push(
                line@[k - 1],
            ));
        }
        out.push('\n');
        *prev_blank = false;
    }
}

/// Trims every line of `text`, collapses each run of blank lines into one, and trims the
/// whole result.
pub fn tidy_lines(text: &str) -> (r: String)
    ensures
        r@ == tidy_text(text@),
{
    let v = chars_of(text);
    let mut out: Vec<char> = Vec::new();
    let mut line: Vec<char> = Vec::new();
    let mut prev_blank = false;
    let n = v.len();
    let mut i: usize = 0;
    while i < n
        invariant
            n == v@.len(),
            i <= n,
            (out@, line@, prev_blank) == scan_lines(v@.take(i as int)),
        decreases n - i,
    {
        assert(v@.take(i + 1).drop_last() =~= v@.take(i as int));
        if v[i] == '\n' {
            flush_into(&mut out, &line, &mut prev_blank);
            line = Vec::new();
        } else {
            line.push(v[i]);
        }
        i = i + 1;
    }
    assert(v@.take(n as int) =~= v@);
    flush_into(&mut out, &line, &mut prev_blank);
    let (a, b) = trim_range(&out, 0, out.len());
    assert(out@.subrange(0, out@.len() as int) =~= out@);
    string_of(&out, a, b)
}

/// Whether `s` holds three newlines in a row starting at `i`.
pub open spec fn newlines_at(s: Seq<char>, i: int) -> bool {
    0 <= i && i + 2 < s.len() && s[i] == '\n' && s[i + 1] == '\n' && s[i + 2] == '\n'
}

/// Whether `s` holds three newlines in a row.
pub open spec fn has_blank_run(s: Seq<char>) -> bool {
    exists|i: int| #[trigger] newlines_at(s, i)
}

/// What the line scan keeps true: no three newlines in a row, no pair of newlines at the end
/// unless the last line was blank, and no newline in the line being read.
spec fn scan_ok(st: (Seq<char>, Seq<char>, bool)) -> bool {
    &&& !has_blank_run(st.0)
    &&& (!st.2 && st.0.len() >= 2 ==> !(st.0[st.0.len() - 1] == '\n' && st.0[st.0.len() - 2] == '\n'))
    &&& (forall|k: int| 0 <= k < st.1.len() ==> st.1[k] != '\n')
}

proof fn lemma_piece_of_line(line: Seq<char>)
    requires
        forall|k: int| 0 <= k < line.len() ==> line[k] != '\n',
    ensures
        forall|k: int| 0 <= k < trim(line).len() ==> trim(line)[k] != '\n',
{
    lemma_trim_is_piece(line);
    let (a, b) = choose|a: int, b: int| 0 <= a <= b <= line.len() && trim(line) == line.subrange(a, b);
    assert forall|k: int| 0 <= k < trim(line).len() implies trim(line)[k] != '\n' by {
        assert(trim(line)[k] == line[a + k]);
    }
}

proof fn lemma_flush_ok(out: Seq<char>, line: Seq<char>, prev: bool)
    requires
        scan_ok((out, line, prev)),
    ensures
        scan_ok((flush_line(out, line, prev).0, Seq::empty(), flush_line(out, line, prev).1)),
{
    let t = trim(line);
    assert forall|k: int| 0 <= k < line.len() implies line[k] != '\n' by {
        assert((out, line, prev).1[k] != '\n');
    }
    lemma_piece_of_line(line);
    let r = flush_line(out, line, prev);
    if t.len() == 0 {
        if !prev {
            let o = out.push('\n');
            if has_blank_run(o) {
                let i = choose|i: int| newlines_at(o, i);
                if i + 2 < out.len() {
                    assert(newlines_at(out, i));
                }
            }
        }
    } else {
        let o = out + t.push('\n');
        assert(o.len() == out.len() + t.len() + 1);
        if has_blank_run(o) {
            let i = choose|i: int| newlines_at(o, i);
            if i + 2 < out.len() {
                assert(newlines_at(out, i));
            } else if i + 2 < o.len() - 1 {
                assert(o[i + 2] == t[i + 2 - out.len()]);
            } else if i + 1 < o.len() - 1 {
                assert(o[i + 1] == t[i + 1 - out.len()]);
            } else {
                assert(false);
            }
        }
        assert(o[o.len() - 2] == t[t.len() - 1]);
    }
}

proof fn lemma_scan_ok(s: Seq<char>)
    ensures
        scan_ok(scan_lines(s)),
    decreases s.len(),
{
    if s.len() > 0 {
        lemma_scan_ok(s.drop_last());
        let st = scan_lines(s.drop_last());
        if s.last() == '\n' {
            lemma_flush_ok(st.0, st.1, st.2);
        }
    }
}

/// Cleaned-up text never holds more than one blank line in a row, and neither starts nor
/// ends with white space.
pub proof fn lemma_tidy_text_shape(s: Seq<char>)
    ensures
        !has_blank_run(tidy_text(s)),
        tidy_text(s).len() > 0 ==> !is_space(tidy_text(s)[0]) && !is_space(tidy_text(s).last()),
{
    let st = scan_lines(s);
    lemma_scan_ok(s);
    lemma_flush_ok(st.0, st.1, st.2);
    let o = flush_line(st.0, st.1, st.2).0;
    lemma_trim_is_piece(o);
    lemma_trim_edges(o);
    let (a, b) = choose|a: int, b: int| 0 <= a <= b <= o.len() && trim(o) == o.subrange(a, b);
    if has_blank_run(trim(o)) {
        let t = trim(o);
        let i = choose|i: int| newlines_at(t, i);
        assert(newlines_at(o, a + i));
    }
}

/// The line break at `i`, if there is one, has no white space beside it within its lines:
/// the character before it is another line break or not white space, and so is the one after.
pub open spec fn break_is_clean(s: Seq<char>, i: int) -> bool {
    s[i] == '\n' ==> {
        &&& (i == 0 || s[i - 1] == '\n' || !is_space(s[i - 1]))
        &&& (i + 1 == s.len() || s[i + 1] == '\n' || !is_space(s[i + 1]))
    }
}

/// Every line of `s` is trimmed at its inner ends: no white space stands next to a line break.
pub open spec fn breaks_clean(s: Seq<char>) -> bool {
    forall|i: int| 0 <= i < s.len() ==> #[trigger] break_is_clean(s, i)
}

spec fn output_clean(out: Seq<char>) -> bool {
    &&& breaks_clean(out)
    &&& (out.len() > 0 ==> out.last() == '\n')
}

proof fn lemma_flush_clean(out: Seq<char>, line: Seq<char>, prev: bool)
    requires
        output_clean(out),
        forall|k: int| 0 <= k < line.len() ==> line[k] != '\n',
    ensures
        output_clean(flush_line(out, line, prev).0),
{
    let t = trim(line);
    lemma_piece_of_line(line);
    lemma_trim_edges(line);
    if t.len() == 0 {
        if !prev {
            let o = out.push('\n');
            assert forall|i: int| 0 <= i < o.len() implies #[trigger] break_is_clean(o, i) by {
                if i < out.len() {
                    assert(break_is_clean(out, i));
                }
            }
        }
    } else {
        let o = out + t.push('\n');
        assert forall|i: int| 0 <= i < o.len() implies #[trigger] break_is_clean(o, i) by {
            if i < out.len() {
                assert(break_is_clean(out, i));
                if i + 1 == out.len() {
                    assert(o[i + 1] == t[0]);
                }
            } else if i < o.len() - 1 {
                assert(o[i] == t[i - out.len()]);
            } else {
                assert(o[i - 1] == t[t.len() - 1]);
            }
        }
    }
}

proof fn lemma_scan_clean(s: Seq<char>)
    ensures
        output_clean(scan_lines(s).0),
        forall|k: int| 0 <= k < scan_lines(s).1.len() ==> scan_lines(s).1[k] != '\n',
    decreases s.len(),
{
    if s.len() > 0 {
        lemma_scan_clean(s.drop_last());
        let st = scan_lines(s.drop_last());
        if s.last() == '\n' {
            lemma_flush_clean(st.0, st.1, st.2);
        } else {
            let l = st.1.push(s.last());
            assert forall|k: int| 0 <= k < l.len() implies l[k] != '\n' by {
                if k < st.1.len() {
                    assert(l[k] == st.1[k]);
                }
            }
        }
    }
}

/// Every line of cleaned-up text is trimmed: no white space stands next to a line break, and
/// none at either end of the text.
pub proof fn lemma_tidy_lines_trimmed(s: Seq<char>)
    ensures
        breaks_clean(tidy_text(s)),
        tidy_text(s).len() > 0 ==> !is_space(tidy_text(s)[0]) && !is_space(tidy_text(s).last()),
{
    let st = scan_lines(s);
    lemma_scan_clean(s);
    lemma_flush_clean(st.0, st.1, st.2);
    let o = flush_line(st.0, st.1, st.2).0;
    lemma_trim_is_piece(o);
    lemma_trim_edges(o);
    let (a, b) = choose|a: int, b: int| 0 <= a <= b <= o.len() && trim(o) == o.subrange(a, b);
    let t = trim(o);
    assert forall|i: int| 0 <= i < t.len() implies #[trigger] break_is_clean(t, i) by {
        assert(break_is_clean(o, a + i));
        assert(t[i] == o[a + i]);
        if i > 0 {
            assert(t[i - 1] == o[a + i - 1]);
        }
        if i + 1 < t.len() {
            assert(t[i + 1] == o[a + i + 1]);
        }
    }
}

/// The characters of `s` that are not white space, in order.
pub open spec fn visible(s: Seq<char>) -> Seq<char>
    decreases s.len(),
{
    if s.len() == 0 {
        Seq::empty()
    } else if is_space(s.last()) {
        visible(s.drop_last())
    } else {
        visible(s.drop_last()).push(s.last())
    }
}

proof fn lemma_visible_concat(a: Seq<char>, b: Seq<char>)
    ensures
        visible(a + b) == visible(a) + visible(b),
    decreases b.len(),
{
    if b.len() == 0 {
        assert(a + b =~= a);
        assert(visible(a) + visible(b) =~= visible(a));
    } else {
        assert((a + b).drop_last() =~= a + b.drop_last());
        lemma_visible_concat(a, b.drop_last());
        if !is_space(b.last()) {
            assert((visible(a) + visible(b.drop_last())).push(b.last()) =~= visible(a) + visible(
                b.drop_last(),
            ).push(b.last()));
        }
    }
}

proof fn lemma_visible_of_space(s: Seq<char>)
    requires
        forall|k: int| 0 <= k < s.len() ==> is_space(#[trigger] s[k]),
    ensures
        visible(s) == Seq::<char>::empty(),
    decreases s.len(),
{
    if s.len() > 0 {
        assert(is_space(s[s.len() - 1]));
        lemma_visible_of_space(s.drop_last());
    }
}

proof fn lemma_visible_trim(s: Seq<char>)
    ensures
        visible(trim(s)) == visible(s),
{
    lemma_trim_drops_only_space(s);
    let (a, b) = choose|a: int, b: int|
        0 <= a <= b <= s.len() && trim(s) == #[trigger] s.subrange(a, b) && (forall|k: int|
            0 <= k < a ==> is_space(#[trigger] s[k])) && (forall|k: int| b <= k < s.len() ==> is_space(#[trigger] s[k]));
    let pre = s.subrange(0, a);
    let mid = s.subrange(a, b);
    let post = s.subrange(b, s.len() as int);
    assert(s =~= pre + mid + post);
    assert forall|k: int| 0 <= k < pre.len() implies is_space(#[trigger] pre[k]) by {
        assert(pre[k] == s[k]);
    }
    assert forall|k: int| 0 <= k < post.len() implies is_space(#[trigger] post[k]) by {
        assert(post[k] == s[b + k]);
    }
    lemma_visible_of_space(pre);
    lemma_visible_of_space(post);
    lemma_visible_concat(pre + mid, post);
    lemma_visible_concat(pre, mid);
    assert(Seq::<char>::empty() + visible(mid) + Seq::<char>::empty() =~= visible(mid));
}

proof fn lemma_visible_flush(out: Seq<char>, line: Seq<char>, prev: bool)
    ensures
        visible(flush_line(out, line, prev).0) == visible(out) + visible(line),
{
    let t = trim(line);
    lemma_visible_trim(line);
    if t.len() == 0 {
        assert(visible(t) == Seq::<char>::empty());
        assert(visible(out) + visible(line) =~= visible(out));
        if !prev {
            assert(out.push('\n').drop_last() =~= out);
        }
    } else {
        lemma_visible_concat(out, t.push('\n'));
        assert(t.push('\n').drop_last() =~= t);
    }
}

proof fn lemma_visible_scan(s: Seq<char>)
    ensures
        visible(scan_lines(s).0) + visible(scan_lines(s).1) == visible(s),
    decreases s.len(),
{
    if s.len() == 0 {
        assert(visible(Seq::<char>::empty()) + visible(Seq::<char>::empty()) =~= Seq::<char>::empty());
    } else {
        lemma_visible_scan(s.drop_last());
        let st = scan_lines(s.drop_last());
        if s.last() == '\n' {
            lemma_visible_flush(st.0, st.1, st.2);
            assert(visible(flush_line(st.0, st.1, st.2).0) + visible(Seq::<char>::empty()) =~= visible(
                flush_line(st.0, st.1, st.2).0,
            ));
        } else {
            assert(st.1.push(s.last()).drop_last() =~= st.1);
            if !is_space(s.last()) {
                assert(visible(st.0) + visible(st.1).push(s.last()) =~= (visible(st.0) + visible(st.1)).push(
                    s.last(),
                ));
            }
        }
    }
}

/// Cleaning up text keeps every character that is not white space, in order, and adds
/// none: it only removes and collapses white space.
pub proof fn lemma_tidy_keeps_visible(s: Seq<char>)
    ensures
        visible(tidy_text(s)) == visible(s),
{
    let st = scan_lines(s);
    lemma_visible_scan(s);
    lemma_visible_flush(st.0, st.1, st.2);
    lemma_visible_trim(flush_line(st.0, st.1, st.2).0);
}

/// Text without line breaks is cleaned up to itself trimmed.
pub proof fn lemma_tidy_single_line(s: Seq<char>)
    requires
        forall|k: int| 0 <= k < s.len() ==> s[k] != '\n',
    ensures
        tidy_text(s) == trim(s),
{
    lemma_scan_single_line(s);
    let t = trim(s);
    if t.len() == 0 {
        let o = Seq::<char>::empty().push('\n');
        assert(trim_start(o) == trim_start(o.subrange(1, 1)));
        assert(o.subrange(1, 1) =~= Seq::<char>::empty());
        assert(trim(o) =~= Seq::<char>::empty());
        assert(t =~= Seq::<char>::empty());
    } else {
        let o = Seq::<char>::empty() + t.push('\n');
        lemma_trim_edges(s);
        lemma_trim_drops_only_space(o);
        let (a, b) = choose|a: int, b: int|
            0 <= a <= b <= o.len() && trim(o) == #[trigger] o.subrange(a, b) && (forall|k: int|
                0 <= k < a ==> is_space(#[trigger] o[k])) && (forall|k: int| b <= k < o.len() ==> is_space(#[trigger] o[k]));
        lemma_trim_edges(o);
        lemma_trim_idempotent_piece(o, a, b, t);
    }
}

proof fn lemma_trim_idempotent_piece(o: Seq<char>, a: int, b: int, t: Seq<char>)
    requires
        t.len() > 0,
        !is_space(t[0]),
        !is_space(t.last()),
        o == Seq::<char>::empty() + t.push('\n'),
        0 <= a <= b <= o.len(),
        trim(o) == o.subrange(a, b),
        forall|k: int| 0 <= k < a ==> is_space(#[trigger] o[k]),
        forall|k: int| b <= k < o.len() ==> is_space(#[trigger] o[k]),
        trim(o).len() > 0 ==> !is_space(trim(o)[0]) && !is_space(trim(o).last()),
    ensures
        trim(o) == t,
{
    assert(o[0] == t[0]);
    assert(o[t.len() - 1] == t.last());
    assert(o[t.len() as int] == '\n');
    assert(a == 0);
    assert(b >= t.len());
    if b == o.len() {
        assert(trim(o).last() == '\n');
    }
    assert(b == t.len());
    assert(trim(o) =~= t);
}

proof fn lemma_scan_single_line(s: Seq<char>)
    requires
        forall|k: int| 0 <= k < s.len() ==> s[k] != '\n',
    ensures
        scan_lines(s) == (Seq::<char>::empty(), s, false),
    decreases s.len(),
{
    if s.len() > 0 {
        assert(s[s.len() - 1] != '\n');
        lemma_scan_single_line(s.drop_last());
        assert(s.drop_last().push(s.last()) =~= s);
    }
}

// ---------------------------------------------------------------------------
// Splitting into lines
// ---------------------------------------------------------------------------

/// `l` without one trailing carriage return.
pub open spec fn strip_cr(l: Seq<char>) -> Seq<char> {
    if l.len() > 0 && l.last() == '\r' {
        l.drop_last()
    } else {
        l
    }
}

/// The lines finished after reading `s`, and the line being read.
pub open spec fn split_scan(s: Seq<char>) -> (Seq<Seq<char>>, Seq<char>)
    decreases s.len(),
{
    if s.len() == 0 {
        (Seq::empty(), Seq::empty())
    } else {
        let st = split_scan(s.drop_last());
        if s.last() == '\n' {
            (st.0.push(strip_cr(st.1)), Seq::empty())
        } else {
            (st.0, st.1.push(s.last()))
        }
    }
}

/// The lines of `s` as `str::lines` gives them: split at each `\n`, a `\r` just before a
/// `\n` dropped, and no empty line after a final `\n`.
pub open spec fn text_lines(s: Seq<char>) -> Seq<Seq<char>> {
    let st = split_scan(s);
    if st.1.len() == 0 {
        st.0
    } else {
        st.0.push(st.1)
    }
}

fn string_without_cr(line: &Vec<char>) -> (r: String)
    ensures
        r@ == strip_cr(line@),
{
    let n = line.len();
    if n > 0 && line[n - 1] == '\r' {
        let r = string_of(line, 0, n - 1);
        assert(line@.subrange(0, n - 1) =~= line@.drop_last());
        r
    } else {
        let r = string_of(line, 0, n);
        assert(line@.subrange(0, n as int) =~= line@);
        r
    }
}

/// The lines of `text`, as `str::lines` splits it.
pub fn lines_of(text: &str) -> (r: Vec<String>)
    ensures
        r@.len() == text_lines(text@).len(),
        forall|k: int| 0 <= k < r@.len() ==> #[trigger] r@[k]@ == text_lines(text@)[k],
{
    let v = chars_of(text);
    let mut done: Vec<String> = Vec::new();
    let mut line: Vec<char> = Vec::new();
    let n = v.len();
    let mut i: usize = 0;
    while i < n
        invariant
            n == v@.len(),
            i <= n,
            done@.len() == split_scan(v@.take(i as int)).0.len(),
            forall|k: int| 0 <= k < done@.len() ==> #[trigger] done@[k]@ == split_scan(v@.take(i as int)).0[k],
            line@ == split_scan(v@.take(i as int)).1,
        decreases n - i,
    {
        assert(v@.take(i + 1).drop_last() =~= v@.take(i as int));
        if v[i] == '\n' {
            let l = string_without_cr(&line);
            done.push(l);
            line = Vec::new();
        } else {
            line.push(v[i]);
        }
        i = i + 1;
    }
    assert(v@.take(n as int) =~= v@);
    if line.len() > 0 {
        let n2 = line.len();
        let l = string_of(&line, 0, n2);
        assert(line@.subrange(0, n2 as int) =~= line@);
        done.push(l);
    }
    done
}

proof fn lemma_split_scan_no_break(s: Seq<char>)
    requires
        forall|k: int| 0 <= k < s.len() ==> s[k] != '\n',
    ensures
        split_scan(s) == (Seq::<Seq<char>>::empty(), s),
    decreases s.len(),
{
    if s.len() > 0 {
        assert(s[s.len() - 1] != '\n');
        lemma_split_scan_no_break(s.drop_last());
        assert(s.drop_last().push(s.last()) =~= s);
    }
}

proof fn lemma_split_scan_concat(x: Seq<char>, b: Seq<char>)
    requires
        split_scan(x).1.len() == 0,
    ensures
        split_scan(x + b) == (split_scan(x).0 + split_scan(b).0, split_scan(b).1),
    decreases b.len(),
{
    if b.len() == 0 {
        assert(x + b =~= x);
        assert(split_scan(x).0 + Seq::<Seq<char>>::empty() =~= split_scan(x).0);
        assert(split_scan(x).1 =~= Seq::<char>::empty());
    } else {
        assert((x + b).drop_last() =~= x + b.drop_last());
        assert((x + b).last() == b.last());
        lemma_split_scan_concat(x, b.drop_last());
        let p = split_scan(x).0;
        let q = split_scan(b.drop_last());
        if b.last() == '\n' {
            assert((p + q.0).push(strip_cr(q.1)) =~= p + q.0.push(strip_cr(q.1)));
        }
    }
}

/// Empty text has no lines.
pub proof fn lemma_text_lines_empty()
    ensures
        text_lines(Seq::<char>::empty()) == Seq::<Seq<char>>::empty(),
{
}

/// Text without a line break, and not empty, is one line.
pub proof fn lemma_text_lines_one(s: Seq<char>)
    requires
        s.len() > 0,
        forall|k: int| 0 <= k < s.len() ==> s[k] != '\n',
    ensures
        text_lines(s) == seq![s],
{
    lemma_split_scan_no_break(s);
    assert(Seq::<Seq<char>>::empty().push(s) =~= seq![s]);
}

/// A first line `a` ended by a line break is the first of the lines, without a carriage
/// return just before the break; the lines of what follows come after it.
pub proof fn lemma_text_lines_first(a: Seq<char>, b: Seq<char>)
    requires
        forall|k: int| 0 <= k < a.len() ==> a[k] != '\n',
    ensures
        text_lines(a.push('\n') + b) == seq![
            if a.len() > 0 && a.last() == '\r' {
                a.drop_last()
            } else {
                a
            },
        ] + text_lines(b),
{
    lemma_split_scan_no_break(a);
    let x = a.push('\n');
    assert(x.drop_last() =~= a);
    assert(split_scan(x) == (Seq::<Seq<char>>::empty().push(strip_cr(a)), Seq::<char>::empty()));
    lemma_split_scan_concat(x, b);
    assert(Seq::<Seq<char>>::empty().push(strip_cr(a)) =~= seq![strip_cr(a)]);
    let sb = split_scan(b);
    if sb.1.len() == 0 {
    } else {
        assert((seq![strip_cr(a)] + sb.0).push(sb.1) =~= seq![strip_cr(a)] + sb.0.push(sb.1));
    }
}

// ---------------------------------------------------------------------------
// Searching
// ---------------------------------------------------------------------------

/// Whether `p` occurs in `s` at position `i`.
pub open spec fn occurs_at(s: Seq<char>, p: Seq<char>, i: int) -> bool {
    0 <= i && i + p.len() <= s.len() && s.subrange(i, i + p.len()) == p
}

/// The first position at or after `i` where `p` occurs in `s`, as `str::find` reports it.
pub open spec fn find_from(s: Seq<char>, p: Seq<char>, i: int) -> Option<int>
    decreases s.len() + 1 - i,
{
    if i < 0 || i + p.len() > s.len() {
        None
    } else if occurs_at(s, p, i) {
        Some(i)
    } else {
        find_from(s, p, i + 1)
    }
}

/// What a search result says: a found position is the first occurrence from `i` on, and no
/// result means no occurrence from `i` on.
pub proof fn lemma_find_from(s: Seq<char>, p: Seq<char>, i: int)
    requires
        0 <= i,
    ensures
        match find_from(s, p, i) {
            Some(j) => i <= j && j + p.len() <= s.len() && occurs_at(s, p, j) && forall|k: int|
                i <= k < j ==> !#[trigger] occurs_at(s, p, k),
            None => forall|k: int| i <= k ==> !#[trigger] occurs_at(s, p, k),
        },
    decreases s.len() + 1 - i,
{
    if i + p.len() > s.len() {
    } else if occurs_at(s, p, i) {
    } else {
        lemma_find_from(s, p, i + 1);
    }
}

/// The first position at or after `from` where `p` occurs in `s`.
pub fn find_in(s: &Vec<char>, p: &Vec<char>, from: usize) -> (r: Option<usize>)
    requires
        from <= s@.len(),
    ensures
        match r {
            Some(j) => find_from(s@, p@, from as int) == Some(j as int),
            None => find_from(s@, p@, from as int) is None,
        },
{
    let n = s.len();
    let m = p.len();
    let mut i = from;
    while i <= n && m <= n - i
        invariant
            n == s@.len(),
            m == p@.len(),
            from <= i,
            find_from(s@, p@, from as int) == find_from(s@, p@, i as int),
        decreases n + 1 - i,
    {
        let mut k: usize = 0;
        let mut same = true;
        while k < m
            invariant
                n == s@.len(),
                m == p@.len(),
                i + m <= n,
                k <= m,
                same == (forall|t: int| 0 <= t < k ==> s@[i + t] == p@[t]),
            decreases m - k,
        {
            if s[i + k] != p[k] {
                same = false;
            }
            k = k + 1;
        }
        if same {
            assert(s@.subrange(i as int, i + m) =~= p@);
            return Some(i);
        }
        assert(!occurs_at(s@, p@, i as int)) by {
            if s@.subrange(i as int, i + m) == p@ {
                let t = choose|t: int| 0 <= t < m && s@[i + t] != p@[t];
                assert(s@.subrange(i as int, i + m)[t] == s@[i + t]);
            }
        }
        i = i + 1;
    }
    None
}

} // verus!
