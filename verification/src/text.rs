//! Character-level helpers for line-oriented text formats: line splitting,
//! Unicode whitespace, trimming, whitespace-separated fields and unsigned
//! decimal integers.
//!
//! Each executable function is proved equal to a spec function that states
//! the rule directly (`str::lines`, `str::trim`, `str::split_whitespace` and
//! `str::parse` for unsigned integers, as the Rust documentation describes
//! them).
use vstd::prelude::*;

verus! {

// ---------------------------------------------------------------------------
// Specifications
// ---------------------------------------------------------------------------

/// Unicode `White_Space`: the characters for which `char::is_whitespace` holds.
pub open spec fn is_ws(c: char) -> bool {
    let u = c as u32;
    ||| 9 <= u <= 13
    ||| u == 32
    ||| u == 0x85
    ||| u == 0xA0
    ||| u == 0x1680
    ||| 0x2000 <= u <= 0x200A
    ||| u == 0x2028
    ||| u == 0x2029
    ||| u == 0x202F
    ||| u == 0x205F
    ||| u == 0x3000
}

/// First index at or after `i` that is not whitespace (or `s.len()`).
pub open spec fn ws_end(s: Seq<char>, i: int) -> int
    decreases s.len() - i,
{
    if 0 <= i < s.len() && is_ws(s[i]) {
        ws_end(s, i + 1)
    } else {
        i
    }
}

/// First index at or after `i` that is whitespace (or `s.len()`).
pub open spec fn word_end(s: Seq<char>, i: int) -> int
    decreases s.len() - i,
{
    if 0 <= i < s.len() && !is_ws(s[i]) {
        word_end(s, i + 1)
    } else {
        i
    }
}

/// Start of the run of whitespace that ends at `e`.
pub open spec fn trailing_ws_start(s: Seq<char>, e: int) -> int
    decreases e,
{
    if 0 < e <= s.len() && is_ws(s[e - 1]) {
        trailing_ws_start(s, e - 1)
    } else {
        e
    }
}

/// `s` without leading and trailing whitespace (`str::trim`).
pub open spec fn trimmed(s: Seq<char>) -> Seq<char> {
    let a = ws_end(s, 0);
    let b = trailing_ws_start(s, s.len() as int);
    if a < b {
        s.subrange(a, b)
    } else {
        Seq::empty()
    }
}

pub proof fn lemma_ws_end_bounds(s: Seq<char>, i: int)
    requires
        0 <= i <= s.len(),
    ensures
        i <= ws_end(s, i) <= s.len(),
        forall|k: int| i <= k < ws_end(s, i) ==> is_ws(#[trigger] s[k]),
        ws_end(s, i) < s.len() ==> !is_ws(s[ws_end(s, i)]),
    decreases s.len() - i,
{
    if i < s.len() && is_ws(s[i]) {
        lemma_ws_end_bounds(s, i + 1);
    }
}

pub proof fn lemma_word_end_bounds(s: Seq<char>, i: int)
    requires
        0 <= i <= s.len(),
    ensures
        i <= word_end(s, i) <= s.len(),
        forall|k: int| i <= k < word_end(s, i) ==> !is_ws(#[trigger] s[k]),
        word_end(s, i) < s.len() ==> is_ws(s[word_end(s, i)]),
    decreases s.len() - i,
{
    if i < s.len() && !is_ws(s[i]) {
        lemma_word_end_bounds(s, i + 1);
    }
}

pub proof fn lemma_trailing_ws_bounds(s: Seq<char>, e: int)
    requires
        0 <= e <= s.len(),
    ensures
        0 <= trailing_ws_start(s, e) <= e,
        forall|k: int| trailing_ws_start(s, e) <= k < e ==> is_ws(#[trigger] s[k]),
        trailing_ws_start(s, e) > 0 ==> !is_ws(s[trailing_ws_start(s, e) - 1]),
    decreases e,
{
    if 0 < e && is_ws(s[e - 1]) {
        lemma_trailing_ws_bounds(s, e - 1);
    }
}

/// The whitespace-separated fields of `s` from index `i` on.
pub open spec fn fields_from(s: Seq<char>, i: int) -> Seq<Seq<char>>
    decreases s.len() - i,
{
    if i < 0 || i > s.len() {
        Seq::empty()
    } else {
        let a = ws_end(s, i);
        if a >= s.len() {
            Seq::empty()
        } else {
            let b = word_end(s, a);
            proof {
                lemma_ws_end_bounds(s, i);
                lemma_word_end_bounds(s, a);
            }
            seq![s.subrange(a, b)] + fields_from(s, b)
        }
    }
}

/// The whitespace-separated fields of `s` (`str::split_whitespace`).
pub open spec fn fields_of(s: Seq<char>) -> Seq<Seq<char>> {
    fields_from(s, 0)
}

/// First newline at or after `i` (or `s.len()`).
pub open spec fn line_end(s: Seq<char>, i: int) -> int
    decreases s.len() - i,
{
    if 0 <= i < s.len() && s[i] != '\n' {
        line_end(s, i + 1)
    } else {
        i
    }
}

pub proof fn lemma_line_end_bounds(s: Seq<char>, i: int)
    requires
        0 <= i <= s.len(),
    ensures
        i <= line_end(s, i) <= s.len(),
        forall|k: int| i <= k < line_end(s, i) ==> #[trigger] s[k] != '\n',
        line_end(s, i) < s.len() ==> s[line_end(s, i)] == '\n',
    decreases s.len() - i,
{
    if i < s.len() && s[i] != '\n' {
        lemma_line_end_bounds(s, i + 1);
    }
}

/// A line that was ended by `\n` loses one `\r` before it.
pub open spec fn strip_cr(l: Seq<char>) -> Seq<char> {
    if l.len() > 0 && l.last() == '\r' {
        l.drop_last()
    } else {
        l
    }
}

/// The lines of `s` from index `i` on.
pub open spec fn lines_from(s: Seq<char>, i: int) -> Seq<Seq<char>>
    decreases s.len() - i,
{
    if i < 0 || i >= s.len() {
        Seq::empty()
    } else {
        let e = line_end(s, i);
        proof {
            lemma_line_end_bounds(s, i);
        }
        let raw = s.subrange(i, e);
        if e < s.len() {
            seq![strip_cr(raw)] + lines_from(s, e + 1)
        } else {
            seq![raw]
        }
    }
}

/// The lines of `s` (`str::lines`): split at `\n` or `\r\n`; the final line
/// ending is optional, and a `\r` that no `\n` follows stays in the line.
pub open spec fn text_lines(s: Seq<char>) -> Seq<Seq<char>> {
    lines_from(s, 0)
}

pub open spec fn is_digit(c: char) -> bool {
    48 <= (c as u32) <= 57
}

pub open spec fn digit_value(c: char) -> int {
    (c as u32) - 48
}

pub open spec fn all_digits(s: Seq<char>) -> bool {
    forall|k: int| 0 <= k < s.len() ==> is_digit(#[trigger] s[k])
}

/// The number that a string of decimal digits denotes.
pub open spec fn digits_value(s: Seq<char>) -> nat
    decreases s.len(),
{
    if s.len() == 0 {
        0
    } else {
        (digits_value(s.drop_last()) * 10 + digit_value(s.last())) as nat
    }
}

/// The digits of an unsigned integer field: one leading `+` is allowed.
pub open spec fn unsigned_digits(tok: Seq<char>) -> Seq<char> {
    if tok.len() > 0 && tok[0] == '+' {
        tok.drop_first()
    } else {
        tok
    }
}

/// What `str::parse` gives for an unsigned integer type whose largest value is
/// `max`: an optional `+`, then one or more ASCII digits, denoting at most `max`.
pub open spec fn parse_unsigned_spec(tok: Seq<char>, max: int) -> Option<int> {
    let d = unsigned_digits(tok);
    if d.len() > 0 && all_digits(d) && digits_value(d) <= max {
        Some(digits_value(d) as int)
    } else {
        None
    }
}

pub proof fn lemma_digits_value_prefix_le(s: Seq<char>, i: int)
    requires
        0 <= i <= s.len(),
        all_digits(s),
    ensures
        digits_value(s.take(i)) <= digits_value(s),
    decreases s.len() - i,
{
    if i < s.len() {
        lemma_digits_value_prefix_le(s, i + 1);
        assert(s.take(i + 1).drop_last() =~= s.take(i));
        assert(is_digit(s[i]));
    } else {
        assert(s.take(i) =~= s);
    }
}

/// An ASCII decimal digit, `'0'` to `'9'`.
pub open spec fn ascii_digit(c: char) -> bool {
    ('0' as u32) <= (c as u32) <= ('9' as u32)
}

/// Unsigned integers are read in decimal: a single digit `'0'` to `'9'`
/// is its own value.
pub proof fn lemma_parse_unsigned_one_digit(c: char, max: int)
    requires
        ascii_digit(c),
        9 <= max,
    ensures
        parse_unsigned_spec(seq![c], max) == Some((c as u32) - ('0' as u32)),
{
    let s = seq![c];
    assert(s.drop_last() =~= Seq::<char>::empty());
    assert(digits_value(s.drop_last()) == 0);
    assert(s.last() == c);
    assert(digits_value(s) == (c as u32) - ('0' as u32));
    assert(unsigned_digits(s) == s);
    assert(all_digits(s));
}

/// Unsigned integers are read in decimal: one more digit `c` after the
/// digits `d` gives ten times their value plus that of `c`, when that is
/// at most `max`, and no value otherwise; digits without a value have
/// none with one more digit either.
pub proof fn lemma_parse_unsigned_next_digit(d: Seq<char>, c: char, max: int)
    requires
        d.len() > 0,
        forall|k: int| 0 <= k < d.len() ==> ascii_digit(#[trigger] d[k]),
        ascii_digit(c),
    ensures
        parse_unsigned_spec(d, max) matches Some(v) ==> parse_unsigned_spec(d.push(c), max) == if 10
            * v + ((c as u32) - ('0' as u32)) <= max {
            Some(10 * v + ((c as u32) - ('0' as u32)))
        } else {
            None::<int>
        },
        parse_unsigned_spec(d.push(c), max) is Some ==> parse_unsigned_spec(d, max) is Some,
{
    let e = d.push(c);
    assert(d[0] != '+') by {
        assert(ascii_digit(d[0]));
    }
    assert(e[0] == d[0]);
    assert(unsigned_digits(d) == d);
    assert(unsigned_digits(e) == e);
    assert(all_digits(d)) by {
        assert forall|k: int| 0 <= k < d.len() implies is_digit(#[trigger] d[k]) by {
            assert(ascii_digit(d[k]));
        }
    }
    assert(all_digits(e)) by {
        assert forall|k: int| 0 <= k < e.len() implies is_digit(#[trigger] e[k]) by {
            if k < d.len() {
                assert(e[k] == d[k]);
                assert(ascii_digit(d[k]));
            }
        }
    }
    assert(e.drop_last() =~= d);
    assert(digits_value(e) == digits_value(d) * 10 + ((c as u32) - ('0' as u32)));
}

/// Only ASCII digits are read: a text that, after one optional leading
/// `+`, is empty or holds any other character has no value.
pub proof fn lemma_parse_unsigned_rejects(tok: Seq<char>, max: int)
    requires
        unsigned_digits(tok).len() == 0 || exists|k: int|
            0 <= k < unsigned_digits(tok).len() && !ascii_digit(#[trigger] unsigned_digits(tok)[k]),
    ensures
        parse_unsigned_spec(tok, max) is None,
{
    let d = unsigned_digits(tok);
    if d.len() > 0 {
        let k = choose|k: int| 0 <= k < d.len() && !ascii_digit(#[trigger] d[k]);
        assert(!is_digit(d[k]));
    }
}

/// A leading `+` is allowed before the digits and changes nothing.
pub proof fn lemma_parse_unsigned_plus(d: Seq<char>, max: int)
    requires
        d.len() > 0,
        forall|k: int| 0 <= k < d.len() ==> ascii_digit(#[trigger] d[k]),
    ensures
        parse_unsigned_spec(seq!['+'] + d, max) == parse_unsigned_spec(d, max),
{
    assert((seq!['+'] + d).drop_first() =~= d);
    assert(d[0] != '+') by {
        assert(ascii_digit(d[0]));
    }
}

/// The character sequences held by a vector of character vectors.
pub open spec fn rows_view(v: Seq<Vec<char>>) -> Seq<Seq<char>> {
    v.map_values(|r: Vec<char>| r@)
}

pub proof fn lemma_rows_view_push(v: Seq<Vec<char>>, r: Vec<char>)
    ensures
        rows_view(v.push(r)) == rows_view(v).push(r@),
{
    assert(rows_view(v.push(r)) =~= rows_view(v).push(r@));
}

// ---------------------------------------------------------------------------
// Executable code
// ---------------------------------------------------------------------------

/// `char::is_whitespace`.
pub fn is_whitespace(c: char) -> (b: bool)
    ensures
        b == is_ws(c),
{
    let u = c as u32;
    (9 <= u && u <= 13) || u == 32 || u == 0x85 || u == 0xA0 || u == 0x1680 || (0x2000 <= u && u
        <= 0x200A) || u == 0x2028 || u == 0x2029 || u == 0x202F || u == 0x205F || u == 0x3000
}

/// Index of the first non-whitespace character at or after `start`.
pub fn skip_whitespace(s: &Vec<char>, start: usize) -> (r: usize)
    requires
        start <= s.len(),
    ensures
        r == ws_end(s@, start as int),
{
    let mut i = start;
    while i < s.len() && is_whitespace(s[i])
        invariant
            start <= i <= s.len(),
            ws_end(s@, i as int) == ws_end(s@, start as int),
        decreases s.len() - i,
    {
        i += 1;
    }
    i
}

/// Index of the first whitespace character at or after `start`.
pub fn skip_word(s: &Vec<char>, start: usize) -> (r: usize)
    requires
        start <= s.len(),
    ensures
        r == word_end(s@, start as int),
{
    let mut i = start;
    while i < s.len() && !is_whitespace(s[i])
        invariant
            start <= i <= s.len(),
            word_end(s@, i as int) == word_end(s@, start as int),
        decreases s.len() - i,
    {
        i += 1;
    }
    i
}

/// Copy of `s[a..b]`.
pub fn copy_range(s: &Vec<char>, a: usize, b: usize) -> (r: Vec<char>)
    requires
        a <= b <= s.len(),
    ensures
        r@ == s@.subrange(a as int, b as int),
{
    let mut r: Vec<char> = Vec::new();
    let mut k = a;
    while k < b
        invariant
            a <= k <= b <= s.len(),
            r@ == s@.subrange(a as int, k as int),
        decreases b - k,
    {
        r.push(s[k]);
        k += 1;
        assert(r@ =~= s@.subrange(a as int, k as int));
    }
    r
}

/// `s` without leading and trailing whitespace.
pub fn trim(s: &Vec<char>) -> (r: Vec<char>)
    ensures
        r@ == trimmed(s@),
{
    let a = skip_whitespace(s, 0);
    let mut b = s.len();
    while b > 0 && is_whitespace(s[b - 1])
        invariant
            b <= s.len(),
            trailing_ws_start(s@, b as int) == trailing_ws_start(s@, s@.len() as int),
        decreases b,
    {
        b -= 1;
    }
    if a < b {
        copy_range(s, a, b)
    } else {
        Vec::new()
    }
}

/// The whitespace-separated fields of `s`.
pub fn fields(s: &Vec<char>) -> (r: Vec<Vec<char>>)
    ensures
        rows_view(r@) == fields_of(s@),
{
    let mut out: Vec<Vec<char>> = Vec::new();
    let mut i: usize = 0;
    loop
        invariant
            i <= s.len(),
            fields_of(s@) == rows_view(out@) + fields_from(s@, i as int),
        decreases s.len() - i,
    {
        let a = skip_whitespace(s, i);
        proof {
            lemma_ws_end_bounds(s@, i as int);
        }
        if a >= s.len() {
            assert(fields_from(s@, i as int) =~= Seq::<Seq<char>>::empty());
            assert(rows_view(out@) + Seq::<Seq<char>>::empty() =~= rows_view(out@));
            return out;
        }
        let b = skip_word(s, a);
        proof {
            lemma_word_end_bounds(s@, a as int);
        }
        let w = copy_range(s, a, b);
        let ghost before = rows_view(out@);
        proof {
            lemma_rows_view_push(out@, w);
        }
        out.push(w);
        assert(fields_from(s@, i as int) == seq![s@.subrange(a as int, b as int)] + fields_from(
            s@,
            b as int,
        ));
        assert(before + fields_from(s@, i as int) =~= rows_view(out@) + fields_from(s@, b as int));
        i = b;
    }
}

/// The chars of `s`.
pub fn chars_of(s: &str) -> (r: Vec<char>)
    ensures
        r@ == s@,
{
    let mut out: Vec<char> = Vec::new();
    for c in it: s.chars()
        invariant
            out@ == it.seq().take(it.index() as int),
    {
        out.push(c);
    }
    out
}

/// The lines of a text, as `str::lines` splits it.
pub fn split_lines(s: &Vec<char>) -> (r: Vec<Vec<char>>)
    ensures
        rows_view(r@) == text_lines(s@),
{
    let mut out: Vec<Vec<char>> = Vec::new();
    let mut i: usize = 0;
    while i < s.len()
        invariant
            i <= s.len(),
            text_lines(s@) == rows_view(out@) + lines_from(s@, i as int),
        decreases s.len() - i,
    {
        let mut e = i;
        while e < s.len() && s[e] != '\n'
            invariant
                i <= e <= s.len(),
                line_end(s@, e as int) == line_end(s@, i as int),
            decreases s.len() - e,
        {
            e += 1;
        }
        proof {
            lemma_line_end_bounds(s@, i as int);
        }
        let mut stop = e;
        if e < s.len() && e > i && s[e - 1] == '\r' {
            stop = e - 1;
        }
        let line = copy_range(s, i, stop);
        let ghost raw = s@.subrange(i as int, e as int);
        assert(line@ == (if e < s.len() {
            strip_cr(raw)
        } else {
            raw
        })) by {
            if e < s.len() && e > i && s[e - 1 as int] == '\r' {
                assert(raw.drop_last() =~= s@.subrange(i as int, stop as int));
            }
        }
        let ghost before = rows_view(out@);
        proof {
            lemma_rows_view_push(out@, line);
        }
        out.push(line);
        if e < s.len() {
            assert(before + lines_from(s@, i as int) =~= rows_view(out@) + lines_from(
                s@,
                e + 1,
            ));
            i = e + 1;
        } else {
            assert(before + lines_from(s@, i as int) =~= rows_view(out@));
            i = e;
            assert(lines_from(s@, i as int) =~= Seq::<Seq<char>>::empty());
            assert(rows_view(out@) + Seq::<Seq<char>>::empty() =~= rows_view(out@));
        }
    }
    assert(lines_from(s@, i as int) =~= Seq::<Seq<char>>::empty());
    assert(rows_view(out@) + Seq::<Seq<char>>::empty() =~= rows_view(out@));
    out
}

/// Parses an unsigned decimal integer of at most `max`, as `str::parse` does
/// for an unsigned integer type whose largest value is `max`.
pub fn parse_unsigned(tok: &Vec<char>, max: usize) -> (r: Option<usize>)
    requires
        9 <= max,
    ensures
        r matches Some(v) ==> parse_unsigned_spec(tok@, max as int) == Some(v as int),
        r is None ==> parse_unsigned_spec(tok@, max as int) is None,
{
    let start: usize = if tok.len() > 0 && tok[0] == '+' {
        1
    } else {
        0
    };
    let ghost d = unsigned_digits(tok@);
    assert(d =~= tok@.skip(start as int));
    if start >= tok.len() {
        return None;
    }
    let mut v: usize = 0;
    let mut k = start;
    while k < tok.len()
        invariant
            start <= k <= tok.len(),
            d =~= tok@.skip(start as int),
            d == unsigned_digits(tok@),
            d.len() > 0,
            9 <= max,
            all_digits(d.take(k - start)),
            v as int == digits_value(d.take(k - start)),
            v <= max,
        decreases tok.len() - k,
    {
        let c = tok[k];
        let u = c as u32;
        assert(d[k - start] == c);
        if u < 48 || u > 57 {
            assert(!is_digit(d[k - start]));
            assert(!all_digits(d));
            return None;
        }
        let dv = (u - 48) as usize;
        assert(d.take(k + 1 - start).drop_last() =~= d.take(k - start));
        assert(d.take(k + 1 - start).last() == c);
        assert(digits_value(d.take(k + 1 - start)) == v * 10 + dv);
        if v > (max - dv) / 10 {
            proof {
                assert(v * 10 + dv > max) by (nonlinear_arith)
                    requires
                        v > (max - dv) / 10,
                        dv <= 9,
                        9 <= max,
                ;
                if all_digits(d) {
                    lemma_digits_value_prefix_le(d, k + 1 - start);
                    assert(digits_value(d) > max);
                }
            }
            return None;
        }
        assert(v * 10 + dv <= max) by (nonlinear_arith)
            requires
                v <= (max - dv) / 10,
                dv <= max,
        ;
        v = v * 10 + dv;
        k += 1;
        assert(all_digits(d.take(k - start)));
    }
    assert(d.take(k - start) =~= d);
    Some(v)
}

} // verus!
