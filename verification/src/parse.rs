use vstd::prelude::*;

use crate::geometry::BBox;
use crate::text::{
    chars_of, decimal, digit_char, is_unicode_whitespace, is_whitespace, push_char, push_chars,
    push_padded, trim_bounds, trim_by, zero_padded,
};

verus! {

/// The pieces of `s` between occurrences of `sep` (`str::split` with a char).
pub open spec fn split_on(s: Seq<char>, sep: char) -> Seq<Seq<char>>
    decreases s.len(),
{
    if s.len() == 0 {
        seq![Seq::empty()]
    } else {
        let f = split_on(s.drop_last(), sep);
        if s.last() == sep {
            f.push(Seq::empty())
        } else {
            f.update(f.len() - 1, f.last().push(s.last()))
        }
    }
}

pub proof fn lemma_split_nonempty(s: Seq<char>, sep: char)
    ensures
        split_on(s, sep).len() >= 1,
    decreases s.len(),
{
    if s.len() > 0 {
        lemma_split_nonempty(s.drop_last(), sep);
    }
}

/// Bounds of the pieces of `v` between occurrences of `sep`.
pub fn field_bounds(v: &Vec<char>, sep: char) -> (b: Vec<(usize, usize)>)
    ensures
        b@.len() == split_on(v@, sep).len(),
        forall|k: int|
            0 <= k < b@.len() ==> (#[trigger] b@[k]).0 <= b@[k].1 <= v@.len() && v@.subrange(
                b@[k].0 as int,
                b@[k].1 as int,
            ) == split_on(v@, sep)[k],
{
    let mut b: Vec<(usize, usize)> = Vec::new();
    let mut start: usize = 0;
    let mut i: usize = 0;
    let n = v.len();
    proof {
        assert(v@.take(0) =~= Seq::<char>::empty());
    }
    while i < n
        invariant
            n == v@.len(),
            start <= i <= n,
            split_on(v@.take(i as int), sep).len() == b@.len() + 1,
            forall|k: int|
                0 <= k < b@.len() ==> (#[trigger] b@[k]).0 <= b@[k].1 <= i && v@.subrange(
                    b@[k].0 as int,
                    b@[k].1 as int,
                ) == split_on(v@.take(i as int), sep)[k],
            v@.subrange(start as int, i as int) == split_on(v@.take(i as int), sep).last(),
        decreases n - i,
    {
        let ghost prev = split_on(v@.take(i as int), sep);
        proof {
            assert(v@.take(i + 1).drop_last() =~= v@.take(i as int));
            assert(v@.take(i + 1).last() == v@[i as int]);
        }
        if v[i] == sep {
            b.push((start, i));
            start = i + 1;
            proof {
                assert(v@.subrange(start as int, i + 1) =~= Seq::<char>::empty());
            }
        } else {
            proof {
                assert(v@.subrange(start as int, i + 1) =~= v@.subrange(start as int, i as int).push(
                    v@[i as int],
                ));
            }
        }
        i = i + 1;
    }
    proof {
        assert(v@.take(n as int) =~= v@);
    }
    b.push((start, n));
    b
}

/// `str::trim`: whitespace removed from both ends.
pub open spec fn trimmed(s: Seq<char>) -> Seq<char> {
    trim_by(s, |c: char| is_unicode_whitespace(c))
}

/// Bounds of `v[from..to]` with whitespace removed from both ends.
fn trim_range(v: &Vec<char>, from: usize, to: usize) -> (r: (usize, usize))
    requires
        from <= to <= v@.len(),
    ensures
        from <= r.0 <= r.1 <= to,
        v@.subrange(r.0 as int, r.1 as int) == trimmed(v@.subrange(from as int, to as int)),
{
    let mut part: Vec<char> = Vec::new();
    let mut i = from;
    while i < to
        invariant
            from <= i <= to <= v@.len(),
            part@ == v@.subrange(from as int, i as int),
        decreases to - i,
    {
        part.push(v[i]);
        proof {
            assert(v@.subrange(from as int, i + 1) =~= v@.subrange(from as int, i as int).push(
                v@[i as int],
            ));
        }
        i = i + 1;
    }
    let (a, b) = trim_bounds(&part, Ghost(|c: char| is_unicode_whitespace(c)), |c: char| -> (t:
        bool)
        ensures
            t == is_unicode_whitespace(c),
        { is_whitespace(c) });
    proof {
        assert(part@.subrange(a as int, b as int) =~= v@.subrange(from + a, from + b));
    }
    (from + a, from + b)
}

pub open spec fn is_digit(c: char) -> bool {
    '0' <= c <= '9'
}

/// The value of a run of decimal digits.
pub open spec fn digits_value(s: Seq<char>) -> nat
    decreases s.len(),
{
    if s.len() == 0 {
        0
    } else {
        digits_value(s.drop_last()) * 10 + ((s.last() as int - 48) as nat)
    }
}

pub open spec fn all_digits(s: Seq<char>) -> bool {
    forall|k: int| 0 <= k < s.len() ==> is_digit(#[trigger] s[k])
}

/// The text after an optional leading `+`.
pub open spec fn unsigned_body(s: Seq<char>) -> Seq<char> {
    if s.len() > 0 && s[0] == '+' {
        s.drop_first()
    } else {
        s
    }
}

/// `u32::from_str`: an optional `+` and at least one decimal digit, in range.
pub open spec fn parse_u32_spec(s: Seq<char>) -> Option<u32> {
    let b = unsigned_body(s);
    if b.len() > 0 && all_digits(b) && digits_value(b) <= u32::MAX {
        Some(digits_value(b) as u32)
    } else {
        None
    }
}

/// `i32::from_str`: an optional sign and at least one decimal digit, in range.
pub open spec fn parse_i32_spec(s: Seq<char>) -> Option<i32> {
    if s.len() > 0 && s[0] == '-' {
        let b = s.drop_first();
        if b.len() > 0 && all_digits(b) && digits_value(b) <= 0x8000_0000 {
            Some((0 - digits_value(b)) as i32)
        } else {
            None
        }
    } else {
        let b = unsigned_body(s);
        if b.len() > 0 && all_digits(b) && digits_value(b) <= i32::MAX {
            Some(digits_value(b) as i32)
        } else {
            None
        }
    }
}

/// `bool::from_str`: exactly `true` or `false`.
pub open spec fn parse_bool_spec(s: Seq<char>) -> Option<bool> {
    if s == seq!['t', 'r', 'u', 'e'] {
        Some(true)
    } else if s == seq!['f', 'a', 'l', 's', 'e'] {
        Some(false)
    } else {
        None
    }
}

proof fn lemma_digits_value_grows(s: Seq<char>, k: int)
    requires
        0 <= k <= s.len(),
        all_digits(s),
    ensures
        digits_value(s.take(k)) <= digits_value(s),
    decreases s.len(),
{
    if k < s.len() {
        assert(all_digits(s.drop_last()));
        lemma_digits_value_grows(s.drop_last(), k);
        assert(s.drop_last().take(k) =~= s.take(k));
    } else {
        assert(s.take(k) =~= s);
    }
}

/// The value of the digits `v[from..to]` if they are all digits and the value
/// is at most `limit`.
fn digits_up_to(v: &Vec<char>, from: usize, to: usize, limit: u64) -> (r: Option<u64>)
    requires
        from <= to <= v@.len(),
        limit <= u32::MAX + 1,
    ensures
        ({
            let s = v@.subrange(from as int, to as int);
            match r {
                Some(x) => all_digits(s) && digits_value(s) <= limit && x == digits_value(s),
                None => !(all_digits(s) && digits_value(s) <= limit),
            }
        }),
{
    let ghost s = v@.subrange(from as int, to as int);
    let mut value: u64 = 0;
    let mut i = from;
    while i < to
        invariant
            from <= i <= to <= v@.len(),
            limit <= u32::MAX + 1,
            s == v@.subrange(from as int, to as int),
            all_digits(s.take(i - from)),
            value == digits_value(s.take(i - from)),
            value <= limit,
        decreases to - i,
    {
        let c = v[i];
        proof {
            assert(s[i - from] == c);
            assert(s.take(i - from + 1).drop_last() =~= s.take(i - from));
        }
        if !('0' <= c && c <= '9') {
            proof {
                assert(!all_digits(s));
            }
            return None;
        }
        value = value * 10 + (c as u64 - 48);
        if value > limit {
            proof {
                if all_digits(s) {
                    lemma_digits_value_grows(s, i - from + 1);
                }
            }
            return None;
        }
        i = i + 1;
    }
    proof {
        assert(s.take(to - from) =~= s);
    }
    Some(value)
}

/// Parses `v[from..to]` as `u32::from_str` does.
pub fn parse_u32_range(v: &Vec<char>, from: usize, to: usize) -> (r: Option<u32>)
    requires
        from <= to <= v@.len(),
    ensures
        r == parse_u32_spec(v@.subrange(from as int, to as int)),
{
    let ghost s = v@.subrange(from as int, to as int);
    let mut start = from;
    if from < to && v[from] == '+' {
        start = from + 1;
        proof {
            assert(s.drop_first() =~= v@.subrange(start as int, to as int));
        }
    } else {
        proof {
            assert(unsigned_body(s) == s);
        }
    }
    if start == to {
        return None;
    }
    match digits_up_to(v, start, to, 0xFFFF_FFFF) {
        Some(x) => Some(x as u32),
        None => None,
    }
}

/// Parses a string as `u32::from_str` does.
pub fn parse_u32(s: &str) -> (r: Option<u32>)
    ensures
        r == parse_u32_spec(s@),
{
    let v = chars_of(s);
    proof {
        assert(v@.subrange(0, v@.len() as int) =~= v@);
    }
    parse_u32_range(&v, 0, v.len())
}

/// Parses a string as `i32::from_str` does.
pub fn parse_i32(s: &str) -> (r: Option<i32>)
    ensures
        r == parse_i32_spec(s@),
{
    let v = chars_of(s);
    let n = v.len();
    if n > 0 && v[0] == '-' {
        proof {
            assert(s@.drop_first() =~= v@.subrange(1, n as int));
        }
        if n == 1 {
            return None;
        }
        match digits_up_to(&v, 1, n, 0x8000_0000) {
            Some(x) => Some((0 - (x as i64)) as i32),
            None => None,
        }
    } else {
        let mut start: usize = 0;
        if n > 0 && v[0] == '+' {
            start = 1;
            proof {
                assert(s@.drop_first() =~= v@.subrange(1, n as int));
            }
        } else {
            proof {
                assert(v@.subrange(0, n as int) =~= s@);
            }
        }
        if start == n {
            return None;
        }
        match digits_up_to(&v, start, n, 0x7FFF_FFFF) {
            Some(x) => Some(x as i32),
            None => None,
        }
    }
}

/// Parses a string as `bool::from_str` does.
pub fn parse_bool(s: &str) -> (r: Option<bool>)
    ensures
        r == parse_bool_spec(s@),
{
    let v = chars_of(s);
    if v.len() == 4 && v[0] == 't' && v[1] == 'r' && v[2] == 'u' && v[3] == 'e' {
        proof {
            assert(s@ =~= seq!['t', 'r', 'u', 'e']);
        }
        Some(true)
    } else if v.len() == 5 && v[0] == 'f' && v[1] == 'a' && v[2] == 'l' && v[3] == 's' && v[4]
        == 'e' {
        proof {
            assert(s@ =~= seq!['f', 'a', 'l', 's', 'e']);
            assert(s@ != seq!['t', 'r', 'u', 'e']);
        }
        Some(false)
    } else {
        proof {
            if s@ == seq!['t', 'r', 'u', 'e'] {
                assert(v@.len() == 4 && v@[0] == 't' && v@[1] == 'r' && v@[2] == 'u' && v@[3] == 'e');
            }
            if s@ == seq!['f', 'a', 'l', 's', 'e'] {
                assert(v@.len() == 5 && v@[0] == 'f' && v@[4] == 'e');
            }
        }
        None
    }
}

/// A rectangle written as `x,y,w,h` with a positive width and height.
pub open spec fn roi_from_fields(f: Seq<Seq<char>>) -> Option<BBox> {
    if f.len() == 4 && parse_u32_spec(f[0]) is Some && parse_u32_spec(f[1]) is Some
        && parse_u32_spec(f[2]) is Some && parse_u32_spec(f[3]) is Some && parse_u32_spec(
        f[2],
    )->0 > 0 && parse_u32_spec(f[3])->0 > 0 {
        Some(
            BBox {
                x: parse_u32_spec(f[0])->0,
                y: parse_u32_spec(f[1])->0,
                width: parse_u32_spec(f[2])->0,
                height: parse_u32_spec(f[3])->0,
            },
        )
    } else {
        None
    }
}

/// Parses a region given on the command line as `x,y,w,h`; the width and
/// height must be positive.
pub fn parse_roi(s: &str) -> (r: Option<BBox>)
    ensures
        r == roi_from_fields(split_on(s@, ',')),
{
    let v = chars_of(s);
    let b = field_bounds(&v, ',');
    if b.len() != 4 {
        return None;
    }
    let x = parse_u32_range(&v, b[0].0, b[0].1);
    let y = parse_u32_range(&v, b[1].0, b[1].1);
    let w = parse_u32_range(&v, b[2].0, b[2].1);
    let h = parse_u32_range(&v, b[3].0, b[3].1);
    match (x, y, w, h) {
        (Some(x), Some(y), Some(w), Some(h)) => {
            if w > 0 && h > 0 {
                Some(BBox { x, y, width: w, height: h })
            } else {
                None
            }
        },
        _ => None,
    }
}

/// Four values written as `a,b,c,d`, each allowed surrounding whitespace.
pub open spec fn values_from_fields(f: Seq<Seq<char>>) -> Option<Seq<u32>> {
    if f.len() == 4 && parse_u32_spec(trimmed(f[0])) is Some && parse_u32_spec(trimmed(f[1])) is Some
        && parse_u32_spec(trimmed(f[2])) is Some && parse_u32_spec(trimmed(f[3])) is Some {
        Some(
            seq![
                parse_u32_spec(trimmed(f[0]))->0,
                parse_u32_spec(trimmed(f[1]))->0,
                parse_u32_spec(trimmed(f[2]))->0,
                parse_u32_spec(trimmed(f[3]))->0,
            ],
        )
    } else {
        None
    }
}

/// Parses a region stored in the settings file as `x,y,w,h`.
pub fn parse_roi_values(s: &str) -> (r: Option<[u32; 4]>)
    ensures
        match r {
            Some(a) => values_from_fields(split_on(s@, ',')) == Some(a@),
            None => values_from_fields(split_on(s@, ',')) is None,
        },
{
    let v = chars_of(s);
    let b = field_bounds(&v, ',');
    if b.len() != 4 {
        return None;
    }
    let mut out: [u32; 4] = [0, 0, 0, 0];
    let mut i: usize = 0;
    while i < 4
        invariant
            b@.len() == 4,
            v@ == s@,
            i <= 4,
            forall|k: int|
                0 <= k < 4 ==> (#[trigger] b@[k]).0 <= b@[k].1 <= v@.len() && v@.subrange(
                    b@[k].0 as int,
                    b@[k].1 as int,
                ) == split_on(v@, ',')[k],
            forall|k: int|
                0 <= k < i ==> parse_u32_spec(trimmed(split_on(v@, ',')[k])) == Some(
                    #[trigger] out@[k],
                ),
        decreases 4 - i,
    {
        let (lo, hi) = trim_range(&v, b[i].0, b[i].1);
        match parse_u32_range(&v, lo, hi) {
            Some(x) => {
                out[i] = x;
            },
            None => {
                proof {
                    assert(b@[i as int].0 <= b@[i as int].1);
                    assert(v@.subrange(lo as int, hi as int) == trimmed(split_on(s@, ',')[i as int]));
                }
                return None;
            },
        }
        i = i + 1;
    }
    proof {
        assert(out@ =~= seq![out@[0], out@[1], out@[2], out@[3]]);
    }
    Some(out)
}

/// The settings-file text of a region: `x,y,w,h` in decimal.
pub open spec fn roi_text(r: Seq<u32>) -> Seq<char> {
    decimal(r[0] as nat) + seq![','] + decimal(r[1] as nat) + seq![','] + decimal(r[2] as nat)
        + seq![','] + decimal(r[3] as nat)
}

/// Writes a region as `x,y,w,h`.
pub fn format_roi(r: &[u32; 4]) -> (s: String)
    ensures
        s@ == roi_text(r@),
{
    let mut s = String::new();
    push_padded(&mut s, r[0] as u64, 0);
    push_char(&mut s, ',');
    push_padded(&mut s, r[1] as u64, 0);
    push_char(&mut s, ',');
    push_padded(&mut s, r[2] as u64, 0);
    push_char(&mut s, ',');
    push_padded(&mut s, r[3] as u64, 0);
    proof {
        assert(s@ =~= roi_text(r@));
    }
    s
}

proof fn lemma_digit_char(d: int)
    requires
        0 <= d < 10,
    ensures
        digit_char(d) as int - 48 == d,
        is_digit(digit_char(d)),
{
}

pub(crate) proof fn lemma_decimal_digits(n: nat)
    ensures
        decimal(n).len() > 0,
        all_digits(decimal(n)),
        digits_value(decimal(n)) == n,
    decreases n,
{
    lemma_digit_char((n % 10) as int);
    if n < 10 {
        let e = decimal(n);
        assert(e.drop_last() =~= Seq::<char>::empty());
        assert(digits_value(e.drop_last()) == 0);
        assert(e.last() == digit_char(n as int));
        assert(n % 10 == n);
        assert(digits_value(e) == digits_value(e.drop_last()) * 10 + ((e.last() as int - 48) as nat));
    } else {
        lemma_decimal_digits(n / 10);
        let d = decimal(n / 10);
        let e = decimal(n);
        assert(e.drop_last() =~= d);
        assert(e.last() == digit_char((n % 10) as int));
        assert(digits_value(e) == digits_value(d) * 10 + (n % 10));
        assert((n / 10) * 10 + n % 10 == n) by (nonlinear_arith);
        assert forall|k: int| 0 <= k < e.len() implies is_digit(#[trigger] e[k]) by {
            if k < d.len() {
                assert(e[k] == d[k]);
            }
        }
    }
}

pub proof fn lemma_split_no_sep(b: Seq<char>, sep: char, a: Seq<char>)
    requires
        forall|k: int| 0 <= k < b.len() ==> #[trigger] b[k] != sep,
    ensures
        split_on(b, sep) == seq![b],
        split_on(a + seq![sep] + b, sep) == split_on(a, sep).push(b),
    decreases b.len(),
{
    if b.len() == 0 {
        assert(b =~= Seq::<char>::empty());
        assert(split_on(b, sep) =~= seq![b]);
        assert((a + seq![sep] + b).drop_last() =~= a);
        assert(split_on(a + seq![sep] + b, sep) =~= split_on(a, sep).push(b));
    } else {
        let c = b.last();
        lemma_split_no_sep(b.drop_last(), sep, a);
        assert(b.drop_last().push(c) =~= b);
        assert(split_on(b, sep) =~= seq![b]);
        assert((a + seq![sep] + b).drop_last() =~= a + seq![sep] + b.drop_last());
        lemma_split_nonempty(a, sep);
        assert(split_on(a + seq![sep] + b, sep) =~= split_on(a, sep).push(b));
    }
}

/// A number written in decimal reads back as itself, also after trimming.
pub proof fn law_decimal_round_trip(n: u32)
    ensures
        forall|k: int| 0 <= k < decimal(n as nat).len() ==> #[trigger] decimal(n as nat)[k] != ',',
        trimmed(decimal(n as nat)) == decimal(n as nat),
        parse_u32_spec(decimal(n as nat)) == Some(n),
        parse_u32_spec(seq!['+'] + decimal(n as nat)) == Some(n),
        parse_u32_spec(seq!['-'] + decimal(n as nat)) is None,
        parse_u32_spec(Seq::empty()) is None,
{
    let d = decimal(n as nat);
    assert((seq!['+'] + d).drop_first() =~= d);
    assert((seq!['-'] + d)[0] == '-');
    assert(!is_digit('-'));
    lemma_decimal_digits(n as nat);
    let p = |c: char| is_unicode_whitespace(c);
    assert(is_digit(d[0]) && is_digit(d.last()));
    crate::text::lemma_trim_start_skips(d, p, 0);
    assert(d.skip(0) =~= d);
    crate::text::lemma_trim_end_takes(d, p, d.len() as int);
    assert(d.take(d.len() as int) =~= d);
    assert(unsigned_body(d) == d);
}

/// Reading back what `format_roi` writes gives the same four values.
pub proof fn law_roi_text_round_trip(r: Seq<u32>)
    requires
        r.len() == 4,
    ensures
        values_from_fields(split_on(roi_text(r), ',')) == Some(r),
{
    law_decimal_round_trip(r[0]);
    law_decimal_round_trip(r[1]);
    law_decimal_round_trip(r[2]);
    law_decimal_round_trip(r[3]);
    let d0 = decimal(r[0] as nat);
    let d1 = decimal(r[1] as nat);
    let d2 = decimal(r[2] as nat);
    let d3 = decimal(r[3] as nat);
    let sep = seq![','];
    lemma_split_no_sep(d0, ',', Seq::empty());
    lemma_split_no_sep(d1, ',', d0);
    lemma_split_no_sep(d2, ',', d0 + sep + d1);
    lemma_split_no_sep(d3, ',', d0 + sep + d1 + sep + d2);
    assert(roi_text(r) == d0 + sep + d1 + sep + d2 + sep + d3);
    assert(split_on(roi_text(r), ',') =~= seq![d0, d1, d2, d3]);
    assert(r =~= seq![r[0], r[1], r[2], r[3]]);
}

/// `l` without one trailing carriage return.
pub open spec fn strip_cr(l: Seq<char>) -> Seq<char> {
    if l.len() > 0 && l.last() == '\r' {
        l.drop_last()
    } else {
        l
    }
}

/// `str::lines`: pieces between `\n`, a `\r` before a `\n` removed, and no
/// empty piece after a final `\n`.
pub open spec fn lines_of(s: Seq<char>) -> Seq<Seq<char>> {
    let parts = split_on(s, '\n');
    let n = if s.len() == 0 {
        0
    } else if s.last() == '\n' {
        parts.len() - 1
    } else {
        parts.len() as int
    };
    Seq::new(
        n as nat,
        |i: int|
            if i < parts.len() - 1 {
                strip_cr(parts[i])
            } else {
                parts[i]
            },
    )
}

/// Index of the first `c` in `s`, or `s.len()` if there is none.
pub open spec fn first_index(s: Seq<char>, c: char) -> int
    decreases s.len(),
{
    if s.len() == 0 {
        0
    } else if s[0] == c {
        0
    } else {
        1 + first_index(s.drop_first(), c)
    }
}

/// The canonical name on a line of the characters file: the text before
/// the first `:`, else before the first `=`, else the whole (trimmed) line,
/// trimmed.
pub open spec fn canonical_name(t: Seq<char>) -> Seq<char> {
    let colon = first_index(t, ':');
    let eq = first_index(t, '=');
    let end = if colon < t.len() {
        colon
    } else {
        eq
    };
    trimmed(t.take(end))
}

proof fn lemma_first_index_at(t: Seq<char>, c: char, i: int)
    requires
        0 <= i <= t.len(),
        forall|j: int| 0 <= j < i ==> #[trigger] t[j] != c,
        i == t.len() || t[i] == c,
    ensures
        first_index(t, c) == i,
    decreases i,
{
    if i > 0 {
        assert forall|j: int| 0 <= j < i - 1 implies #[trigger] t.drop_first()[j] != c by {
            assert(t.drop_first()[j] == t[j + 1]);
        }
        if i < t.len() {
            assert(t.drop_first()[i - 1] == t[i]);
        }
        lemma_first_index_at(t.drop_first(), c, i - 1);
    }
}

/// Trimming removes exactly the whitespace before the first and after the
/// last non-whitespace character.
pub proof fn law_trimmed(s: Seq<char>, a: int, b: int)
    requires
        0 <= a <= b <= s.len(),
        forall|k: int| 0 <= k < a ==> is_unicode_whitespace(#[trigger] s[k]),
        forall|k: int| b <= k < s.len() ==> is_unicode_whitespace(#[trigger] s[k]),
        a < b ==> !is_unicode_whitespace(s[a]) && !is_unicode_whitespace(s[b - 1]),
        a == b ==> forall|k: int| 0 <= k < s.len() ==> is_unicode_whitespace(#[trigger] s[k]),
    ensures
        trimmed(s) == s.subrange(a, b),
{
    let p = |c: char| is_unicode_whitespace(c);
    if a < b {
        crate::text::lemma_trim_start_skips(s, p, a);
        let r = s.skip(a);
        assert forall|k: int| b - a <= k < r.len() implies p(#[trigger] r[k]) by {
            assert(r[k] == s[a + k]);
        }
        assert(r[b - a - 1] == s[b - 1]);
        crate::text::lemma_trim_end_takes(r, p, b - a);
        assert(r.take(b - a) =~= s.subrange(a, b));
    } else {
        crate::text::lemma_trim_start_skips(s, p, s.len() as int);
        let r = s.skip(s.len() as int);
        assert(r.len() == 0);
        crate::text::lemma_trim_end_takes(r, p, 0);
        assert(r.take(0) =~= s.subrange(a, b));
    }
}

/// The name on a line of the characters file is the trimmed text before the
/// first `:` when there is one, else before the first `=` when there is one,
/// else the whole trimmed line.
pub proof fn law_canonical_name(t: Seq<char>, i: int)
    requires
        0 <= i <= t.len(),
    ensures
        (forall|j: int| 0 <= j < t.len() ==> #[trigger] t[j] != ':' && t[j] != '=')
            ==> canonical_name(t) == trimmed(t),
        i < t.len() && t[i] == ':' && (forall|j: int| 0 <= j < i ==> #[trigger] t[j] != ':')
            ==> canonical_name(t) == trimmed(t.take(i)),
        i < t.len() && t[i] == '=' && (forall|j: int| 0 <= j < t.len() ==> #[trigger] t[j] != ':')
            && (forall|j: int| 0 <= j < i ==> #[trigger] t[j] != '=') ==> canonical_name(t)
            == trimmed(t.take(i)),
{
    if forall|j: int| 0 <= j < t.len() ==> #[trigger] t[j] != ':' && t[j] != '=' {
        lemma_first_index_at(t, ':', t.len() as int);
        lemma_first_index_at(t, '=', t.len() as int);
        assert(t.take(t.len() as int) =~= t);
    }
    if i < t.len() && t[i] == ':' && (forall|j: int| 0 <= j < i ==> #[trigger] t[j] != ':') {
        lemma_first_index_at(t, ':', i);
    }
    if i < t.len() && t[i] == '=' && (forall|j: int| 0 <= j < t.len() ==> #[trigger] t[j] != ':')
        && (forall|j: int| 0 <= j < i ==> #[trigger] t[j] != '=') {
        lemma_first_index_at(t, ':', t.len() as int);
        lemma_first_index_at(t, '=', i);
    }
}

/// Lines that are blank or comments (`#` or `//`) name no character.
pub open spec fn is_comment_or_blank(t: Seq<char>) -> bool {
    t.len() == 0 || t[0] == '#' || (t.len() >= 2 && t[0] == '/' && t[1] == '/')
}

/// The code of `c` with ASCII upper case letters mapped to lower case.
pub open spec fn ascii_lower(c: char) -> u32 {
    if 'A' <= c <= 'Z' {
        ((c as u32) + 32) as u32
    } else {
        c as u32
    }
}

/// `str::eq_ignore_ascii_case`.
pub open spec fn eq_ignore_ascii_case(a: Seq<char>, b: Seq<char>) -> bool {
    a.len() == b.len() && forall|i: int| 0 <= i < a.len() ==> ascii_lower(#[trigger] a[i]) == ascii_lower(b[i])
}

/// The names list after reading `lines`: it starts with `None`, and each
/// canonical name is added unless it is empty or already present up to
/// ASCII case.
pub open spec fn names_from_lines(lines: Seq<Seq<char>>) -> Seq<Seq<char>>
    decreases lines.len(),
{
    if lines.len() == 0 {
        seq!["None"@]
    } else {
        let prev = names_from_lines(lines.drop_last());
        let t = trimmed(lines.last());
        let c = canonical_name(t);
        if !is_comment_or_blank(t) && c.len() > 0 && !(exists|k: int|
            0 <= k < prev.len() && eq_ignore_ascii_case(#[trigger] prev[k], c)) {
            prev.push(c)
        } else {
            prev
        }
    }
}

fn find_char(v: &Vec<char>, from: usize, to: usize, c: char) -> (r: usize)
    requires
        from <= to <= v@.len(),
    ensures
        from <= r <= to,
        r - from == first_index(v@.subrange(from as int, to as int), c),
{
    let mut j = from;
    while j < to && v[j] != c
        invariant
            from <= j <= to <= v@.len(),
            first_index(v@.subrange(from as int, to as int), c) == (j - from) + first_index(
                v@.subrange(j as int, to as int),
                c,
            ),
        decreases to - j,
    {
        proof {
            assert(v@.subrange(j as int, to as int).drop_first() =~= v@.subrange(j + 1, to as int));
        }
        j = j + 1;
    }
    j
}

fn eq_ignore_case(a: &Vec<char>, b: &Vec<char>, from: usize, to: usize) -> (r: bool)
    requires
        from <= to <= b@.len(),
    ensures
        r == eq_ignore_ascii_case(a@, b@.subrange(from as int, to as int)),
{
    if a.len() != to - from {
        return false;
    }
    let mut i: usize = 0;
    while i < a.len()
        invariant
            a@.len() == to - from,
            from <= to <= b@.len(),
            i <= a@.len(),
            forall|k: int| 0 <= k < i ==> ascii_lower(#[trigger] a@[k]) == ascii_lower(b@[from + k]),
        decreases a@.len() - i,
    {
        let x = a[i];
        let y = b[from + i];
        let lx: u32 = if 'A' <= x && x <= 'Z' { (x as u32) + 32 } else { x as u32 };
        let ly: u32 = if 'A' <= y && y <= 'Z' { (y as u32) + 32 } else { y as u32 };
        if lx != ly {
            proof {
                let s = b@.subrange(from as int, to as int);
                assert(s[i as int] == y);
            }
            return false;
        }
        i = i + 1;
    }
    proof {
        let s = b@.subrange(from as int, to as int);
        assert forall|k: int| 0 <= k < a@.len() implies ascii_lower(#[trigger] a@[k]) == ascii_lower(s[k]) by {
            assert(s[k] == b@[from + k]);
        }
    }
    true
}

fn sub_vec(v: &Vec<char>, from: usize, to: usize) -> (r: Vec<char>)
    requires
        from <= to <= v@.len(),
    ensures
        r@ == v@.subrange(from as int, to as int),
{
    let mut r: Vec<char> = Vec::new();
    let mut i = from;
    while i < to
        invariant
            from <= i <= to <= v@.len(),
            r@ == v@.subrange(from as int, i as int),
        decreases to - i,
    {
        r.push(v[i]);
        proof {
            assert(v@.subrange(from as int, i + 1) =~= v@.subrange(from as int, i as int).push(
                v@[i as int],
            ));
        }
        i = i + 1;
    }
    r
}

/// Reads the character names file: one name per line, optionally followed
/// by `:` or `=` and aliases; blank lines and `#` or `//` comments are
/// skipped; the list starts with `None` and keeps the first spelling of each
/// name, compared without regard to ASCII case.
pub fn character_names(content: &str) -> (names: Vec<String>)
    ensures
        names@.len() == names_from_lines(lines_of(content@)).len(),
        forall|k: int|
            0 <= k < names@.len() ==> (#[trigger] names@[k])@ == names_from_lines(
                lines_of(content@),
            )[k],
{
    let v = chars_of(content);
    let parts = field_bounds(&v, '\n');
    let n = v.len();
    let ghost lines = lines_of(v@);
    proof {
        lemma_split_nonempty(v@, '\n');
    }
    let n_lines = if n == 0 {
        0
    } else if v[n - 1] == '\n' {
        parts.len() - 1
    } else {
        parts.len()
    };
    let mut names: Vec<String> = Vec::new();
    let mut keys: Vec<Vec<char>> = Vec::new();
    let mut none = String::new();
    none.append("None");
    names.push(none);
    keys.push(chars_of("None"));
    proof {
        assert(lines.take(0) =~= Seq::<Seq<char>>::empty());
    }
    let mut i: usize = 0;
    while i < n_lines
        invariant
            v@ == content@,
            lines == lines_of(v@),
            n_lines == lines.len(),
            parts@.len() == split_on(v@, '\n').len(),
            forall|k: int|
                0 <= k < parts@.len() ==> (#[trigger] parts@[k]).0 <= parts@[k].1 <= v@.len()
                    && v@.subrange(parts@[k].0 as int, parts@[k].1 as int) == split_on(v@, '\n')[k],
            i <= n_lines,
            names@.len() == keys@.len(),
            names@.len() == names_from_lines(lines.take(i as int)).len(),
            forall|k: int|
                0 <= k < names@.len() ==> (#[trigger] names@[k])@ == names_from_lines(
                    lines.take(i as int),
                )[k] && keys@[k]@ == names_from_lines(lines.take(i as int))[k],
        decreases n_lines - i,
    {
        let ghost prev = names_from_lines(lines.take(i as int));
        proof {
            assert(lines.take(i + 1).drop_last() =~= lines.take(i as int));
            assert(lines.take(i + 1).last() == lines[i as int]);
        }
        let (a, b0) = parts[i];
        let mut b = b0;
        if i + 1 < parts.len() && b > a && v[b - 1] == '\r' {
            b = b - 1;
            proof {
                assert(v@.subrange(a as int, b as int) =~= v@.subrange(a as int, b0 as int).drop_last());
            }
        }
        proof {
            assert(v@.subrange(a as int, b as int) == lines[i as int]);
        }
        let (lo, hi) = trim_range(&v, a, b);
        let ghost t = v@.subrange(lo as int, hi as int);
        let blank = lo == hi || v[lo] == '#' || (hi - lo >= 2 && v[lo] == '/' && v[lo + 1] == '/');
        proof {
            if lo < hi {
                assert(t[0] == v@[lo as int]);
            }
            if hi - lo >= 2 {
                assert(t[1] == v@[lo + 1]);
            }
            assert(blank == is_comment_or_blank(t));
        }
        if !blank {
            let colon = find_char(&v, lo, hi, ':');
            let end = if colon < hi {
                colon
            } else {
                find_char(&v, lo, hi, '=')
            };
            proof {
                assert(t.take(end - lo) =~= v@.subrange(lo as int, end as int));
            }
            let (clo, chi) = trim_range(&v, lo, end);
            let ghost c = v@.subrange(clo as int, chi as int);
            proof {
                assert(c == canonical_name(t));
            }
            if clo < chi {
                proof {
                    assert forall|j: int| 0 <= j < keys@.len() implies (#[trigger] keys@[j])@ == prev[j] by {
                        assert(names@[j]@ == prev[j]);
                    }
                }
                let mut dup = false;
                let mut k: usize = 0;
                while k < keys.len() && !dup
                    invariant
                        clo <= chi <= v@.len(),
                        c == v@.subrange(clo as int, chi as int),
                        k <= keys@.len(),
                        names@.len() == keys@.len(),
                        names@.len() == prev.len(),
                        forall|j: int| 0 <= j < keys@.len() ==> (#[trigger] keys@[j])@ == prev[j],
                        dup ==> exists|j: int| 0 <= j < prev.len() && eq_ignore_ascii_case(#[trigger] prev[j], c),
                        !dup ==> forall|j: int| 0 <= j < k ==> !eq_ignore_ascii_case(#[trigger] prev[j], c),
                    decreases keys@.len() - k + (if dup { 0int } else { 1int }),
                {
                    if eq_ignore_case(&keys[k], &v, clo, chi) {
                        dup = true;
                        proof {
                            assert(eq_ignore_ascii_case(prev[k as int], c));
                        }
                    } else {
                        k = k + 1;
                    }
                }
                if !dup {
                    let mut name = String::new();
                    push_chars(&mut name, &v, clo, chi);
                    names.push(name);
                    keys.push(sub_vec(&v, clo, chi));
                    proof {
                        assert(names_from_lines(lines.take(i + 1)) == prev.push(c));
                    }
                } else {
                    proof {
                        assert(names_from_lines(lines.take(i + 1)) == prev);
                    }
                }
            } else {
                proof {
                    assert(names_from_lines(lines.take(i + 1)) == prev);
                }
            }
        } else {
            proof {
                assert(names_from_lines(lines.take(i + 1)) == prev);
            }
        }
        i = i + 1;
    }
    proof {
        assert(lines.take(n_lines as int) =~= lines);
    }
    names
}

/// Every entry of the names list differs from every other one even when
/// ASCII case is ignored, none is empty, and the first one is `None`.
pub proof fn law_character_names_distinct(lines: Seq<Seq<char>>)
    ensures
        names_from_lines(lines).len() >= 1,
        names_from_lines(lines)[0] == "None"@,
        forall|i: int, j: int|
            0 <= i < j < names_from_lines(lines).len() ==> !eq_ignore_ascii_case(
                #[trigger] names_from_lines(lines)[i],
                #[trigger] names_from_lines(lines)[j],
            ),
    decreases lines.len(),
{
    if lines.len() > 0 {
        law_character_names_distinct(lines.drop_last());
        let prev = names_from_lines(lines.drop_last());
        let cur = names_from_lines(lines);
        assert forall|i: int, j: int| 0 <= i < j < cur.len() implies !eq_ignore_ascii_case(
            #[trigger] cur[i],
            #[trigger] cur[j],
        ) by {
            if j < prev.len() {
                assert(cur[i] == prev[i] && cur[j] == prev[j]);
            } else {
                assert(cur[i] == prev[i]);
            }
        }
    }
}

/// A line that names a character: not blank or a comment once trimmed, and
/// with a non-empty name.
pub open spec fn names_character(line: Seq<char>) -> bool {
    !is_comment_or_blank(trimmed(line)) && canonical_name(trimmed(line)).len() > 0
}

proof fn lemma_eq_ignore_case(a: Seq<char>, b: Seq<char>, c: Seq<char>)
    ensures
        eq_ignore_ascii_case(a, b) ==> eq_ignore_ascii_case(b, a),
        eq_ignore_ascii_case(a, b) && eq_ignore_ascii_case(b, c) ==> eq_ignore_ascii_case(a, c),
{
    if eq_ignore_ascii_case(a, b) {
        assert forall|i: int| 0 <= i < b.len() implies ascii_lower(#[trigger] b[i]) == ascii_lower(a[i]) by {
            assert(ascii_lower(a[i]) == ascii_lower(b[i]));
        }
        if eq_ignore_ascii_case(b, c) {
            assert forall|i: int| 0 <= i < a.len() implies ascii_lower(#[trigger] a[i]) == ascii_lower(c[i]) by {
                assert(ascii_lower(a[i]) == ascii_lower(b[i]));
                assert(ascii_lower(b[i]) == ascii_lower(c[i]));
            }
        }
    }
}

/// Every line that names a character has its name in the list, up to ASCII
/// case; every entry after `None` is the name on some line, spelled as on
/// the first line that gives that name (up to ASCII case).
pub proof fn law_character_names_cover(lines: Seq<Seq<char>>)
    ensures
        forall|i: int|
            0 <= i < lines.len() && #[trigger] names_character(lines[i]) ==> exists|k: int|
                0 <= k < names_from_lines(lines).len() && eq_ignore_ascii_case(
                    #[trigger] names_from_lines(lines)[k],
                    canonical_name(trimmed(lines[i])),
                ),
        forall|k: int|
            1 <= k < names_from_lines(lines).len() ==> exists|i: int|
                0 <= i < lines.len() && names_character(lines[i]) && #[trigger] names_from_lines(
                    lines,
                )[k] == canonical_name(trimmed(#[trigger] lines[i])) && forall|j: int|
                    0 <= j < i && names_character(#[trigger] lines[j]) ==> !eq_ignore_ascii_case(
                        canonical_name(trimmed(lines[j])),
                        names_from_lines(lines)[k],
                    ),
    decreases lines.len(),
{
    law_character_names_distinct(lines);
    if lines.len() > 0 {
        let l0 = lines.drop_last();
        law_character_names_cover(l0);
        let prev = names_from_lines(l0);
        let cur = names_from_lines(lines);
        let n = lines.len() - 1;
        let t = trimmed(lines[n]);
        let c = canonical_name(t);
        assert(lines.last() == lines[n]);
        let added = !is_comment_or_blank(t) && c.len() > 0 && !(exists|k: int|
            0 <= k < prev.len() && eq_ignore_ascii_case(#[trigger] prev[k], c));
        assert(cur == if added { prev.push(c) } else { prev });
        assert forall|i: int|
            0 <= i < lines.len() && #[trigger] names_character(lines[i]) implies exists|k: int|
                0 <= k < cur.len() && eq_ignore_ascii_case(#[trigger] cur[k], canonical_name(
                    trimmed(lines[i]),
                )) by {
            if i < n {
                assert(lines[i] == l0[i]);
                assert(names_character(l0[i]));
                let k = choose|k: int|
                    0 <= k < prev.len() && eq_ignore_ascii_case(#[trigger] prev[k], canonical_name(
                        trimmed(l0[i]),
                    ));
                assert(cur[k] == prev[k]);
            } else {
                if added {
                    assert(cur[prev.len() as int] == c);
                    assert(eq_ignore_ascii_case(c, c));
                } else {
                    let k = choose|k: int| 0 <= k < prev.len() && eq_ignore_ascii_case(#[trigger] prev[k], c);
                    assert(cur[k] == prev[k]);
                }
            }
        }
        assert forall|k: int| 1 <= k < cur.len() implies exists|i: int|
            0 <= i < lines.len() && names_character(lines[i]) && #[trigger] cur[k]
                == canonical_name(trimmed(#[trigger] lines[i])) && forall|j: int|
                0 <= j < i && names_character(#[trigger] lines[j]) ==> !eq_ignore_ascii_case(
                    canonical_name(trimmed(lines[j])),
                    cur[k],
                ) by {
            if k < prev.len() {
                assert(cur[k] == prev[k]);
                let i = choose|i: int|
                    0 <= i < l0.len() && names_character(l0[i]) && #[trigger] prev[k]
                        == canonical_name(trimmed(#[trigger] l0[i])) && forall|j: int|
                        0 <= j < i && names_character(#[trigger] l0[j]) ==> !eq_ignore_ascii_case(
                            canonical_name(trimmed(l0[j])),
                            prev[k],
                        );
                assert(lines[i] == l0[i]);
                assert forall|j: int| 0 <= j < i && names_character(#[trigger] lines[j]) implies !eq_ignore_ascii_case(
                    canonical_name(trimmed(lines[j])),
                    cur[k],
                ) by {
                    assert(lines[j] == l0[j]);
                }
            } else {
                assert(added);
                assert(cur[k] == c);
                assert forall|j: int| 0 <= j < n && names_character(#[trigger] lines[j]) implies !eq_ignore_ascii_case(
                    canonical_name(trimmed(lines[j])),
                    c,
                ) by {
                    assert(lines[j] == l0[j]);
                    assert(names_character(l0[j]));
                    let m = choose|m: int|
                        0 <= m < prev.len() && eq_ignore_ascii_case(#[trigger] prev[m], canonical_name(
                            trimmed(l0[j]),
                        ));
                    lemma_eq_ignore_case(prev[m], canonical_name(trimmed(l0[j])), c);
                }
            }
        }
    }
}

/// The width, height and frame-rate text in the first line of `ffprobe`'s
/// `csv=p=0` output for `stream=width,height,r_frame_rate`.
pub open spec fn stream_fields_spec(output: Seq<char>) -> Option<(u32, u32, Seq<char>)> {
    let ls = lines_of(output);
    if ls.len() == 0 {
        None
    } else {
        let f = split_on(trimmed(ls[0]), ',');
        if f.len() >= 3 && parse_u32_spec(f[0]) is Some && parse_u32_spec(f[1]) is Some {
            Some((parse_u32_spec(f[0])->0, parse_u32_spec(f[1])->0, f[2]))
        } else {
            None
        }
    }
}

/// Reads width, height and the frame-rate field from the probe output.
pub fn stream_fields(output: &str) -> (r: Option<(u32, u32, String)>)
    ensures
        match r {
            Some((w, h, rate)) => stream_fields_spec(output@) == Some((w, h, rate@)),
            None => stream_fields_spec(output@) is None,
        },
{
    let v = chars_of(output);
    let n = v.len();
    if n == 0 {
        return None;
    }
    let parts = field_bounds(&v, '\n');
    proof {
        lemma_split_nonempty(v@, '\n');
    }
    let (a, b0) = parts[0];
    let mut b = b0;
    if parts.len() > 1 && b > a && v[b - 1] == '\r' {
        b = b - 1;
        proof {
            assert(v@.subrange(a as int, b as int) =~= v@.subrange(a as int, b0 as int).drop_last());
        }
    }
    proof {
        let ls = lines_of(v@);
        if v@.last() == '\n' {
            assert(parts@.len() > 1) by {
                lemma_split_nonempty(v@.drop_last(), '\n');
            }
        }
        assert(ls.len() > 0);
        assert(v@.subrange(a as int, b as int) == ls[0]);
    }
    let (lo, hi) = trim_range(&v, a, b);
    let line = sub_vec(&v, lo, hi);
    let f = field_bounds(&line, ',');
    if f.len() < 3 {
        return None;
    }
    let w = parse_u32_range(&line, f[0].0, f[0].1);
    let h = parse_u32_range(&line, f[1].0, f[1].1);
    match (w, h) {
        (Some(w), Some(h)) => {
            let mut rate = String::new();
            push_chars(&mut rate, &line, f[2].0, f[2].1);
            Some((w, h, rate))
        },
        _ => None,
    }
}

/// The probe output line `W,H,RATE` followed by a line break gives back the
/// width, the height and the frame-rate text.
pub proof fn law_stream_fields_read_back(w: u32, h: u32, rate: Seq<char>)
    requires
        rate.len() > 0,
        forall|k: int| 0 <= k < rate.len() ==> #[trigger] rate[k] != ',' && rate[k] != '\n',
        !is_unicode_whitespace(rate.last()),
    ensures
        stream_fields_spec(decimal(w as nat) + seq![','] + decimal(h as nat) + seq![','] + rate
            + seq!['\n']) == Some((w, h, rate)),
{
    let dw = decimal(w as nat);
    let dh = decimal(h as nat);
    law_decimal_round_trip(w);
    law_decimal_round_trip(h);
    lemma_decimal_digits(w as nat);
    lemma_decimal_digits(h as nat);
    let line = dw + seq![','] + dh + seq![','] + rate;
    let out = line + seq!['\n'];
    assert forall|k: int| 0 <= k < line.len() implies #[trigger] line[k] != '\n' by {
        if k < dw.len() {
            assert(line[k] == dw[k]);
            assert(is_digit(dw[k]));
        } else if k == dw.len() {
        } else if k < dw.len() + 1 + dh.len() {
            assert(line[k] == dh[k - dw.len() - 1]);
            assert(is_digit(dh[k - dw.len() - 1]));
        } else if k == dw.len() + 1 + dh.len() {
        } else {
            assert(line[k] == rate[k - dw.len() - 2 - dh.len()]);
        }
    }
    lemma_split_no_sep(line, '\n', Seq::empty());
    lemma_split_no_sep(Seq::<char>::empty(), '\n', line);
    assert(line + seq!['\n'] + Seq::<char>::empty() =~= out);
    assert(split_on(out, '\n') == seq![line, Seq::<char>::empty()]);
    assert(out.last() == '\n');
    assert(line.last() == rate.last());
    assert(lines_of(out)[0] == line);
    assert(is_digit(dw[0]));
    assert(line[0] == dw[0]);
    law_trimmed(line, 0, line.len() as int);
    assert(line.subrange(0, line.len() as int) =~= line);
    lemma_split_no_sep(dw, ',', Seq::empty());
    lemma_split_no_sep(dh, ',', dw);
    lemma_split_no_sep(rate, ',', dw + seq![','] + dh);
    assert(Seq::<char>::empty() + seq![','] + dw =~= seq![','] + dw);
    assert(split_on(line, ',') =~= seq![dw, dh, rate]);
}

} // verus!
