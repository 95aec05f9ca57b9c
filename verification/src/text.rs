use vstd::prelude::*;

use crate::geometry::MatchResult;

verus! {

/// Appends one character (`String::push`).
#[verifier::external_body]
pub(crate) fn push_char(s: &mut String, c: char)
    ensures
        final(s)@ == old(s)@.push(c),
{
    s.push(c)
}

/// The characters of a string slice, in order.
pub fn chars_of(s: &str) -> (v: Vec<char>)
    ensures
        v@ == s@,
{
    let mut v: Vec<char> = Vec::new();
    for c in it: s.chars()
        invariant
            v@ == it.seq().take(it.index() as int),
            it.seq() == s@,
    {
        v.push(c);
    }
    v
}

/// Appends the characters of `v[from..to]`.
pub(crate) fn push_chars(out: &mut String, v: &Vec<char>, from: usize, to: usize)
    requires
        from <= to <= v@.len(),
    ensures
        final(out)@ == old(out)@ + v@.subrange(from as int, to as int),
{
    let mut i = from;
    while i < to
        invariant
            from <= i <= to <= v@.len(),
            out@ == old(out)@ + v@.subrange(from as int, i as int),
        decreases to - i,
    {
        push_char(out, v[i]);
        proof {
            assert(v@.subrange(from as int, i + 1) =~= v@.subrange(from as int, i as int).push(
                v@[i as int],
            ));
        }
        i = i + 1;
    }
}

/// The ASCII digit for `d` in `0..10`.
pub open spec fn digit_char(d: int) -> char {
    if d == 0 {
        '0'
    } else if d == 1 {
        '1'
    } else if d == 2 {
        '2'
    } else if d == 3 {
        '3'
    } else if d == 4 {
        '4'
    } else if d == 5 {
        '5'
    } else if d == 6 {
        '6'
    } else if d == 7 {
        '7'
    } else if d == 8 {
        '8'
    } else {
        '9'
    }
}

/// Decimal representation of `n`, without leading zeros.
pub open spec fn decimal(n: nat) -> Seq<char>
    decreases n,
{
    if n < 10 {
        seq![digit_char(n as int)]
    } else {
        decimal(n / 10).push(digit_char((n % 10) as int))
    }
}

/// `decimal(n)` padded on the left with `'0'` to at least `width` characters.
pub open spec fn zero_padded(n: nat, width: nat) -> Seq<char> {
    let d = decimal(n);
    if d.len() >= width {
        d
    } else {
        Seq::new((width - d.len()) as nat, |i: int| '0') + d
    }
}

fn digit(d: u64) -> (c: char)
    requires
        d < 10,
    ensures
        c == digit_char(d as int),
{
    if d == 0 {
        '0'
    } else if d == 1 {
        '1'
    } else if d == 2 {
        '2'
    } else if d == 3 {
        '3'
    } else if d == 4 {
        '4'
    } else if d == 5 {
        '5'
    } else if d == 6 {
        '6'
    } else if d == 7 {
        '7'
    } else if d == 8 {
        '8'
    } else {
        '9'
    }
}

/// The decimal digits of `n`.
pub fn decimal_chars(n: u64) -> (v: Vec<char>)
    ensures
        v@ == decimal(n as nat),
    decreases n,
{
    if n < 10 {
        let mut v = Vec::new();
        v.push(digit(n));
        v
    } else {
        let mut v = decimal_chars(n / 10);
        v.push(digit(n % 10));
        v
    }
}

/// Appends `n` in decimal, zero-padded to at least `width` characters
/// (`format!("{:0width$}", n)`).
pub fn push_padded(out: &mut String, n: u64, width: usize)
    ensures
        final(out)@ == old(out)@ + zero_padded(n as nat, width as nat),
{
    let digits = decimal_chars(n);
    let len = digits.len();
    let ghost start = out@;
    if len < width {
        let mut k: usize = 0;
        while k < width - len
            invariant
                len < width,
                k <= width - len,
                out@ == start + Seq::new(k as nat, |i: int| '0'),
            decreases width - len - k,
        {
            push_char(out, '0');
            proof {
                assert(Seq::new((k + 1) as nat, |i: int| '0') =~= Seq::new(k as nat, |i: int| '0').push(
                    '0',
                ));
            }
            k = k + 1;
        }
    }
    let ghost mid = out@;
    push_chars(out, &digits, 0, len);
    proof {
        assert(digits@.subrange(0, len as int) =~= digits@);
        if len < width {
            assert(out@ =~= start + zero_padded(n as nat, width as nat));
        } else {
            assert(out@ =~= start + zero_padded(n as nat, width as nat));
        }
    }
}

/// `HH:MM:SS` rendering of a duration in seconds, hours growing past two
/// digits when needed.
pub open spec fn duration_text(secs: nat) -> Seq<char> {
    zero_padded(secs / 3600, 2) + seq![':'] + zero_padded((secs % 3600) / 60, 2) + seq![':']
        + zero_padded(secs % 60, 2)
}

/// Formats a number of seconds as `HH:MM:SS`.
pub fn format_duration(secs: u64) -> (s: String)
    ensures
        s@ == duration_text(secs as nat),
{
    let hours = secs / 3600;
    let minutes = (secs % 3600) / 60;
    let seconds = secs % 60;
    let mut s = String::new();
    push_padded(&mut s, hours, 2);
    push_char(&mut s, ':');
    push_padded(&mut s, minutes, 2);
    push_char(&mut s, ':');
    push_padded(&mut s, seconds, 2);
    proof {
        assert(s@ =~= duration_text(secs as nat));
    }
    s
}

/// The three fields of a duration rendering recombine into the duration, and
/// minutes and seconds stay below sixty.
pub proof fn law_duration_fields(secs: nat)
    ensures
        (secs / 3600) * 3600 + ((secs % 3600) / 60) * 60 + secs % 60 == secs,
        (secs % 3600) / 60 < 60,
        secs % 60 < 60,
{
    assert((secs / 3600) * 3600 + ((secs % 3600) / 60) * 60 + secs % 60 == secs) by (
    nonlinear_arith);
    assert((secs % 3600) / 60 < 60) by (nonlinear_arith);
}

/// The Unicode `White_Space` property (what `char::is_whitespace` tests).
pub open spec fn is_unicode_whitespace(c: char) -> bool {
    let u = c as u32;
    ||| 9 <= u <= 13
    ||| u == 32
    ||| u == 0x85
    ||| u == 0xA0
    ||| u == 0x1680
    ||| 0x2000 <= u <= 0x200A
    ||| u == 0x2028
    ||| u == 0x2029
    ||| u == 0x202F
    ||| u == 0x205F
    ||| u == 0x3000
}

/// Whether `c` has the Unicode `White_Space` property.
pub fn is_whitespace(c: char) -> (b: bool)
    ensures
        b == is_unicode_whitespace(c),
{
    let u = c as u32;
    (9 <= u && u <= 13) || u == 32 || u == 0x85 || u == 0xA0 || u == 0x1680 || (0x2000 <= u && u
        <= 0x200A) || u == 0x2028 || u == 0x2029 || u == 0x202F || u == 0x205F || u == 0x3000
}

/// Drops the leading characters that satisfy `p`.
pub open spec fn trim_start_by(s: Seq<char>, p: spec_fn(char) -> bool) -> Seq<char>
    decreases s.len(),
{
    if s.len() > 0 && p(s[0]) {
        trim_start_by(s.drop_first(), p)
    } else {
        s
    }
}

/// Drops the trailing characters that satisfy `p`.
pub open spec fn trim_end_by(s: Seq<char>, p: spec_fn(char) -> bool) -> Seq<char>
    decreases s.len(),
{
    if s.len() > 0 && p(s.last()) {
        trim_end_by(s.drop_last(), p)
    } else {
        s
    }
}

/// Drops leading and trailing characters that satisfy `p` (`str::trim_matches`).
pub open spec fn trim_by(s: Seq<char>, p: spec_fn(char) -> bool) -> Seq<char> {
    trim_end_by(trim_start_by(s, p), p)
}

/// Trimming the front skips exactly the leading run of matching characters.
pub proof fn lemma_trim_start_skips(s: Seq<char>, p: spec_fn(char) -> bool, start: int)
    requires
        0 <= start <= s.len(),
        forall|k: int| 0 <= k < start ==> p(#[trigger] s[k]),
        start == s.len() || !p(s[start]),
    ensures
        trim_start_by(s, p) == s.skip(start),
    decreases start,
{
    if start > 0 {
        assert forall|k: int| 0 <= k < start - 1 implies p(#[trigger] s.drop_first()[k]) by {
            assert(s.drop_first()[k] == s[k + 1]);
        }
        if start < s.len() {
            assert(s.drop_first()[start - 1] == s[start]);
        }
        lemma_trim_start_skips(s.drop_first(), p, start - 1);
        assert(s.drop_first().skip(start - 1) =~= s.skip(start));
    } else {
        assert(s.skip(0) =~= s);
    }
}

/// Trimming the back keeps exactly the part before the trailing run.
pub proof fn lemma_trim_end_takes(s: Seq<char>, p: spec_fn(char) -> bool, end: int)
    requires
        0 <= end <= s.len(),
        forall|k: int| end <= k < s.len() ==> p(#[trigger] s[k]),
        end == 0 || !p(s[end - 1]),
    ensures
        trim_end_by(s, p) == s.take(end),
    decreases s.len() - end,
{
    if end < s.len() {
        assert(p(s[s.len() - 1]));
        assert forall|k: int| end <= k < s.len() - 1 implies p(#[trigger] s.drop_last()[k]) by {
            assert(s.drop_last()[k] == s[k]);
        }
        if end > 0 {
            assert(s.drop_last()[end - 1] == s[end - 1]);
        }
        lemma_trim_end_takes(s.drop_last(), p, end);
        assert(s.drop_last().take(end) =~= s.take(end));
    } else {
        assert(s.take(end) =~= s);
    }
}

/// The bounds of `trim_by`: first kept index and one past the last kept index.
pub fn trim_bounds(
    v: &Vec<char>,
    Ghost(p): Ghost<spec_fn(char) -> bool>,
    test: impl Fn(char) -> bool,
) -> (r: (
    usize,
    usize,
))
    requires
        forall|c: char| #[trigger] test.requires((c,)),
        forall|c: char, b: bool| test.ensures((c,), b) ==> b == p(c),
    ensures
        r.0 <= r.1 <= v@.len(),
        trim_by(v@, p) == v@.subrange(r.0 as int, r.1 as int),
{
    let n = v.len();
    let mut start: usize = 0;
    while start < n && test(v[start])
        invariant
            start <= n == v@.len(),
            forall|c: char| #[trigger] test.requires((c,)),
            forall|c: char, b: bool| test.ensures((c,), b) ==> b == p(c),
            forall|k: int| 0 <= k < start ==> p(#[trigger] v@[k]),
        decreases n - start,
    {
        start = start + 1;
    }
    let mut end: usize = n;
    while end > start && test(v[end - 1])
        invariant
            start <= end <= n == v@.len(),
            forall|c: char| #[trigger] test.requires((c,)),
            forall|c: char, b: bool| test.ensures((c,), b) ==> b == p(c),
            forall|k: int| end <= k < n ==> p(#[trigger] v@[k]),
        decreases end - start,
    {
        end = end - 1;
    }
    proof {
        lemma_trim_start_skips(v@, p, start as int);
        let rest = v@.skip(start as int);
        assert forall|k: int| end - start <= k < rest.len() implies p(#[trigger] rest[k]) by {
            assert(rest[k] == v@[start + k]);
        }
        if end > start {
            assert(rest[end - start - 1] == v@[end - 1]);
        }
        lemma_trim_end_takes(rest, p, end - start);
        assert(rest.take(end - start) =~= v@.subrange(start as int, end as int));
    }
    (start, end)
}

/// Characters that cannot appear in a file name on common systems: path
/// separators, the reserved `: * ? " < > |`, and control characters below 0x20.
pub open spec fn forbidden_in_file_name(c: char) -> bool {
    ||| c == '\\'
    ||| c == '/'
    ||| c == ':'
    ||| c == '*'
    ||| c == '?'
    ||| c == '"'
    ||| c == '<'
    ||| c == '>'
    ||| c == '|'
    ||| (c as u32) <= 0x1F
}

/// `s` with the forbidden characters removed.
pub open spec fn without_forbidden(s: Seq<char>) -> Seq<char>
    decreases s.len(),
{
    if s.len() == 0 {
        s
    } else if forbidden_in_file_name(s.last()) {
        without_forbidden(s.drop_last())
    } else {
        without_forbidden(s.drop_last()).push(s.last())
    }
}

/// Whitespace and dots are stripped from both ends of a file name component.
pub open spec fn edge_trimmable(c: char) -> bool {
    is_unicode_whitespace(c) || c == '.'
}

/// The file-name-safe form of `s`.
pub open spec fn sanitized(s: Seq<char>) -> Seq<char> {
    trim_by(without_forbidden(s), |c: char| edge_trimmable(c))
}

/// Removes characters that are not allowed in file names, then strips
/// whitespace and dots from both ends.
pub fn sanitize_filename_component(name: &str) -> (r: String)
    ensures
        r@ == sanitized(name@),
{
    let chars = chars_of(name);
    let mut kept: Vec<char> = Vec::new();
    let mut i: usize = 0;
    while i < chars.len()
        invariant
            i <= chars@.len(),
            chars@ == name@,
            kept@ == without_forbidden(chars@.take(i as int)),
        decreases chars@.len() - i,
    {
        let c = chars[i];
        proof {
            assert(chars@.take(i + 1).drop_last() =~= chars@.take(i as int));
        }
        let u = c as u32;
        let bad = c == '\\' || c == '/' || c == ':' || c == '*' || c == '?' || c == '"' || c == '<'
            || c == '>' || c == '|' || u <= 0x1F;
        if !bad {
            kept.push(c);
        }
        i = i + 1;
    }
    proof {
        assert(chars@.take(chars@.len() as int) =~= chars@);
    }
    let (start, end) = trim_bounds(&kept, Ghost(|c: char| edge_trimmable(c)), |c: char| -> (b: bool)
        ensures
            b == edge_trimmable(c),
        { is_whitespace(c) || c == '.' });
    let mut r = String::new();
    push_chars(&mut r, &kept, start, end);
    proof {
        assert(r@ =~= sanitized(name@));
    }
    r
}

proof fn lemma_without_forbidden_clean(s: Seq<char>)
    ensures
        forall|k: int| 0 <= k < without_forbidden(s).len() ==> !forbidden_in_file_name(
            #[trigger] without_forbidden(s)[k],
        ),
    decreases s.len(),
{
    if s.len() > 0 {
        lemma_without_forbidden_clean(s.drop_last());
        let r = without_forbidden(s.drop_last());
        assert forall|k: int| 0 <= k < without_forbidden(s).len() implies !forbidden_in_file_name(
            #[trigger] without_forbidden(s)[k],
        ) by {
            if k < r.len() {
                assert(without_forbidden(s)[k] == r[k]);
            }
        }
    }
}

proof fn lemma_without_forbidden_fixed(s: Seq<char>)
    requires
        forall|k: int| 0 <= k < s.len() ==> !forbidden_in_file_name(#[trigger] s[k]),
    ensures
        without_forbidden(s) == s,
    decreases s.len(),
{
    if s.len() > 0 {
        lemma_without_forbidden_fixed(s.drop_last());
        assert(s.drop_last().push(s.last()) =~= s);
    }
}

proof fn lemma_trim_by_subrange(s: Seq<char>, p: spec_fn(char) -> bool) -> (r: (int, int))
    ensures
        0 <= r.0 <= r.1 <= s.len(),
        trim_by(s, p) == s.subrange(r.0, r.1),
        trim_by(s, p).len() > 0 ==> !p(trim_by(s, p)[0]) && !p(trim_by(s, p).last()),
{
    let a = lemma_first_failing(s, p, 0);
    lemma_trim_start_skips(s, p, a);
    let rest = s.skip(a);
    let e = lemma_last_failing(rest, p, rest.len() as int);
    lemma_trim_end_takes(rest, p, e);
    assert(rest.take(e) =~= s.subrange(a, a + e));
    if e > 0 {
        assert(rest.take(e)[0] == s[a]);
    }
    (a, a + e)
}

proof fn lemma_first_failing(s: Seq<char>, p: spec_fn(char) -> bool, i: int) -> (a: int)
    requires
        0 <= i <= s.len(),
        forall|k: int| 0 <= k < i ==> p(#[trigger] s[k]),
    ensures
        0 <= a <= s.len(),
        forall|k: int| 0 <= k < a ==> p(#[trigger] s[k]),
        a == s.len() || !p(s[a]),
    decreases s.len() - i,
{
    if i < s.len() && p(s[i]) {
        lemma_first_failing(s, p, i + 1)
    } else {
        i
    }
}

proof fn lemma_last_failing(s: Seq<char>, p: spec_fn(char) -> bool, i: int) -> (e: int)
    requires
        0 <= i <= s.len(),
        forall|k: int| i <= k < s.len() ==> p(#[trigger] s[k]),
    ensures
        0 <= e <= s.len(),
        forall|k: int| e <= k < s.len() ==> p(#[trigger] s[k]),
        e == 0 || !p(s[e - 1]),
    decreases i,
{
    if i > 0 && p(s[i - 1]) {
        lemma_last_failing(s, p, i - 1)
    } else {
        i
    }
}

/// A sanitized name holds no forbidden character and neither starts nor
/// ends with whitespace or a dot.
pub proof fn law_sanitized_is_safe(s: Seq<char>)
    ensures
        forall|k: int| 0 <= k < sanitized(s).len() ==> !forbidden_in_file_name(
            #[trigger] sanitized(s)[k],
        ),
        sanitized(s).len() > 0 ==> !edge_trimmable(sanitized(s)[0]) && !edge_trimmable(
            sanitized(s).last(),
        ),
{
    let f = without_forbidden(s);
    let p = |c: char| edge_trimmable(c);
    lemma_without_forbidden_clean(s);
    let (a, b) = lemma_trim_by_subrange(f, p);
    assert forall|k: int| 0 <= k < sanitized(s).len() implies !forbidden_in_file_name(
        #[trigger] sanitized(s)[k],
    ) by {
        assert(sanitized(s)[k] == f[a + k]);
    }
}

/// Sanitizing is idempotent: a sanitized name is left as it is.
pub proof fn law_sanitize_idempotent(s: Seq<char>)
    ensures
        sanitized(sanitized(s)) == sanitized(s),
{
    let t = sanitized(s);
    let p = |c: char| edge_trimmable(c);
    law_sanitized_is_safe(s);
    lemma_without_forbidden_fixed(t);
    if t.len() > 0 {
        lemma_trim_start_skips(t, p, 0);
        assert(t.skip(0) =~= t);
        lemma_trim_end_takes(t, p, t.len() as int);
        assert(t.take(t.len() as int) =~= t);
    } else {
        assert(trim_start_by(t, p) == t);
        assert(trim_end_by(t, p) == t);
    }
}

/// The view of an optional text.
pub open spec fn opt_text(o: Option<&str>) -> Option<Seq<char>> {
    match o {
        Some(s) => Some(s@),
        None => None,
    }
}

/// File name prefix for a clip's result.
pub open spec fn result_prefix(r: MatchResult) -> Seq<char> {
    match r {
        MatchResult::Win => "win-"@,
        MatchResult::Lose => "lose-"@,
        MatchResult::Unknown => "unknown-"@,
        MatchResult::Skipped => Seq::empty(),
    }
}

/// File name part naming the two players' characters, `Unknown` for a side
/// that was not recognized; empty when neither was.
pub open spec fn versus_part(p1: Option<Seq<char>>, p2: Option<Seq<char>>) -> Seq<char> {
    match (p1, p2) {
        (Some(a), Some(b)) => "-"@ + a + "-vs-"@ + b,
        (Some(a), None) => "-"@ + a + "-vs-Unknown"@,
        (None, Some(b)) => "-Unknown-vs-"@ + b,
        (None, None) => Seq::empty(),
    }
}

/// `{prefix}{stem}{versus}-part{number:03}.mp4`.
pub open spec fn clip_name(
    r: MatchResult,
    stem: Seq<char>,
    p1: Option<Seq<char>>,
    p2: Option<Seq<char>>,
    number: nat,
) -> Seq<char> {
    result_prefix(r) + stem + versus_part(p1, p2) + "-part"@ + zero_padded(number, 3) + ".mp4"@
}

/// The output file name of clip `number` (counted from one) of the video
/// whose file stem is `stem`.
pub fn clip_file_name(
    result: MatchResult,
    stem: &str,
    p1: Option<&str>,
    p2: Option<&str>,
    number: usize,
) -> (name: String)
    ensures
        name@ == clip_name(result, stem@, opt_text(p1), opt_text(p2), number as nat),
{
    let mut name = String::new();
    match result {
        MatchResult::Win => name.append("win-"),
        MatchResult::Lose => name.append("lose-"),
        MatchResult::Unknown => name.append("unknown-"),
        MatchResult::Skipped => {},
    }
    name.append(stem);
    match (p1, p2) {
        (Some(a), Some(b)) => {
            name.append("-");
            name.append(a);
            name.append("-vs-");
            name.append(b);
        },
        (Some(a), None) => {
            name.append("-");
            name.append(a);
            name.append("-vs-Unknown");
        },
        (None, Some(b)) => {
            name.append("-Unknown-vs-");
            name.append(b);
        },
        (None, None) => {},
    }
    name.append("-part");
    push_padded(&mut name, number as u64, 3);
    name.append(".mp4");
    proof {
        assert(name@ =~= clip_name(result, stem@, opt_text(p1), opt_text(p2), number as nat));
    }
    name
}

pub open spec fn is_ascii_digit(c: char) -> bool {
    '0' <= c <= '9'
}

proof fn lemma_decimal_is_digits(n: nat)
    ensures
        forall|k: int| 0 <= k < decimal(n).len() ==> is_ascii_digit(#[trigger] decimal(n)[k]),
        decimal(n).len() >= 1,
    decreases n,
{
    if n >= 10 {
        lemma_decimal_is_digits(n / 10);
        let d = decimal(n / 10);
        assert forall|k: int| 0 <= k < decimal(n).len() implies is_ascii_digit(#[trigger] decimal(n)[k]) by {
            if k < d.len() {
                assert(decimal(n)[k] == d[k]);
            }
        }
    }
}

/// Numeric value of a run of digits, most significant first.
pub open spec fn digit_run_value(s: Seq<char>) -> nat
    decreases s.len(),
{
    if s.len() == 0 {
        0
    } else {
        digit_run_value(s.drop_last()) * 10 + ((s.last() as int - 48) as nat)
    }
}

proof fn lemma_zeros_value(k: nat)
    ensures
        digit_run_value(Seq::new(k, |i: int| '0')) == 0,
    decreases k,
{
    if k > 0 {
        lemma_zeros_value((k - 1) as nat);
        assert(Seq::new(k, |i: int| '0').drop_last() =~= Seq::new((k - 1) as nat, |i: int| '0'));
    }
}

proof fn lemma_prefix_zeros_value(z: Seq<char>, d: Seq<char>)
    requires
        digit_run_value(z) == 0,
    ensures
        digit_run_value(z + d) == digit_run_value(d),
    decreases d.len(),
{
    if d.len() == 0 {
        assert(z + d =~= z);
    } else {
        lemma_prefix_zeros_value(z, d.drop_last());
        assert((z + d).drop_last() =~= z + d.drop_last());
    }
}

proof fn lemma_decimal_value(n: nat)
    ensures
        digit_run_value(decimal(n)) == n,
    decreases n,
{
    let d = n % 10;
    assert(digit_char(d as int) as int - 48 == d);
    let e = decimal(n);
    if n < 10 {
        assert(e.drop_last() =~= Seq::<char>::empty());
        assert(digit_run_value(e.drop_last()) == 0);
        assert(e.last() == digit_char(n as int));
        assert(n % 10 == n);
        assert(digit_run_value(e) == digit_run_value(e.drop_last()) * 10 + ((e.last() as int - 48) as nat));
    } else {
        lemma_decimal_value(n / 10);
        assert(e.drop_last() =~= decimal(n / 10));
        assert(e.last() == digit_char((n % 10) as int));
        assert(digit_run_value(e) == digit_run_value(decimal(n / 10)) * 10 + (n % 10));
        assert((n / 10) * 10 + n % 10 == n) by (nonlinear_arith);
    }
}

/// A zero-padded number is all digits and reads back as the number.
pub proof fn law_zero_padded_value(n: nat, width: nat)
    ensures
        forall|k: int| 0 <= k < zero_padded(n, width).len() ==> is_ascii_digit(
            #[trigger] zero_padded(n, width)[k],
        ),
        digit_run_value(zero_padded(n, width)) == n,
{
    lemma_decimal_is_digits(n);
    lemma_decimal_value(n);
    let d = decimal(n);
    if d.len() < width {
        let z = Seq::new((width - d.len()) as nat, |i: int| '0');
        lemma_zeros_value((width - d.len()) as nat);
        lemma_prefix_zeros_value(z, d);
        assert forall|k: int| 0 <= k < zero_padded(n, width).len() implies is_ascii_digit(
            #[trigger] zero_padded(n, width)[k],
        ) by {
            if k >= z.len() {
                assert(zero_padded(n, width)[k] == d[k - z.len()]);
            }
        }
    }
}

/// Clips with different numbers get different file names, whatever their
/// results, video stems and character names: exports of one run never
/// overwrite each other.
pub proof fn law_clip_names_distinct(
    r1: MatchResult,
    stem1: Seq<char>,
    a1: Option<Seq<char>>,
    b1: Option<Seq<char>>,
    n1: nat,
    r2: MatchResult,
    stem2: Seq<char>,
    a2: Option<Seq<char>>,
    b2: Option<Seq<char>>,
    n2: nat,
)
    requires
        n1 != n2,
    ensures
        clip_name(r1, stem1, a1, b1, n1) != clip_name(r2, stem2, a2, b2, n2),
{
    let x = clip_name(r1, stem1, a1, b1, n1);
    let y = clip_name(r2, stem2, a2, b2, n2);
    let p1 = zero_padded(n1, 3);
    let p2 = zero_padded(n2, 3);
    law_zero_padded_value(n1, 3);
    law_zero_padded_value(n2, 3);
    let h1 = result_prefix(r1) + stem1 + versus_part(a1, b1) + "-part"@;
    let h2 = result_prefix(r2) + stem2 + versus_part(a2, b2) + "-part"@;
    let ext = ".mp4"@;
    reveal_strlit("-part");
    reveal_strlit(".mp4");
    assert(x == h1 + p1 + ext);
    assert(y == h2 + p2 + ext);
    if x == y {
        let xs = x.take(x.len() - 4);
        assert(xs =~= h1 + p1);
        assert(y.take(y.len() - 4) =~= h2 + p2);
        let l1 = p1.len() as int;
        let l2 = p2.len() as int;
        assert(h1.last() == 't');
        assert(h2.last() == 't');
        if l1 < l2 {
            assert(xs[xs.len() - l1 - 1] == 't');
            assert(xs[xs.len() - l1 - 1] == p2[l2 - l1 - 1]);
            assert(is_ascii_digit(p2[l2 - l1 - 1]));
        } else if l2 < l1 {
            assert(xs[xs.len() - l2 - 1] == 't');
            assert(xs[xs.len() - l2 - 1] == p1[l1 - l2 - 1]);
            assert(is_ascii_digit(p1[l1 - l2 - 1]));
        } else {
            assert(p1 =~= xs.skip(xs.len() - l1));
            assert(p2 =~= xs.skip(xs.len() - l2));
        }
    }
}

/// The characters a file name component may not hold, spelled out: `\ / :
/// * ? " < > |` and the control characters up to U+001F.
proof fn lemma_forbidden_is(c: char)
    ensures
        forbidden_in_file_name(c) <==> (c == '\\' || c == '/' || c == ':' || c == '*' || c == '?'
            || c == '"' || c == '<' || c == '>' || c == '|' || (c as u32) <= 0x1F),
{
}

/// A name that holds none of `\ / : * ? " < > |` or a control character, and
/// neither starts nor ends with whitespace or a dot, is left unchanged; the
/// characters that are kept stay in their order, and letters and digits are
/// always kept.
pub proof fn law_sanitize_keeps_clean(s: Seq<char>)
    ensures
        (forall|k: int|
            0 <= k < s.len() ==> {
                let c = #[trigger] s[k];
                !(c == '\\' || c == '/' || c == ':' || c == '*' || c == '?' || c == '"' || c == '<'
                    || c == '>' || c == '|' || (c as u32) <= 0x1F)
            }) && (s.len() > 0 ==> !is_unicode_whitespace(s[0]) && s[0] != '.'
            && !is_unicode_whitespace(s.last()) && s.last() != '.') ==> sanitized(s) == s,
{
    let p = |c: char| edge_trimmable(c);
    if (forall|k: int|
        0 <= k < s.len() ==> {
            let c = #[trigger] s[k];
            !(c == '\\' || c == '/' || c == ':' || c == '*' || c == '?' || c == '"' || c == '<'
                || c == '>' || c == '|' || (c as u32) <= 0x1F)
        }) && (s.len() > 0 ==> !is_unicode_whitespace(s[0]) && s[0] != '.'
        && !is_unicode_whitespace(s.last()) && s.last() != '.') {
        assert forall|k: int| 0 <= k < s.len() implies !forbidden_in_file_name(#[trigger] s[k]) by {
            lemma_forbidden_is(s[k]);
        }
        lemma_without_forbidden_fixed(s);
        if s.len() > 0 {
            lemma_trim_start_skips(s, p, 0);
            assert(s.skip(0) =~= s);
            lemma_trim_end_takes(s, p, s.len() as int);
            assert(s.take(s.len() as int) =~= s);
        } else {
            assert(trim_start_by(s, p) == s);
            assert(trim_end_by(s, p) == s);
        }
    }
}

/// A clip's file name: `win-`, `lose-` or `unknown-` before the stem for a
/// decided, undecided or unread result (nothing when the result was not
/// looked for), then `-{1P}-vs-{2P}` with `Unknown` for a side not read
/// (nothing when neither was), then `-part`, the clip number in at least
/// three digits, and `.mp4`.
pub proof fn law_clip_name_parts(
    stem: Seq<char>,
    a: Seq<char>,
    b: Seq<char>,
    number: nat,
)
    ensures
        ({
            let tail = "-part"@ + zero_padded(number, 3) + ".mp4"@;
            &&& clip_name(MatchResult::Skipped, stem, None, None, number) == stem + tail
            &&& clip_name(MatchResult::Skipped, stem, Some(a), Some(b), number) == stem + "-"@ + a
                + "-vs-"@ + b + tail
            &&& clip_name(MatchResult::Skipped, stem, Some(a), None, number) == stem + "-"@ + a
                + "-vs-Unknown"@ + tail
            &&& clip_name(MatchResult::Skipped, stem, None, Some(b), number) == stem
                + "-Unknown-vs-"@ + b + tail
        }),
        forall|p1: Option<Seq<char>>, p2: Option<Seq<char>>|
            #![trigger clip_name(MatchResult::Win, stem, p1, p2, number)]
            clip_name(MatchResult::Win, stem, p1, p2, number) == "win-"@ + clip_name(
                MatchResult::Skipped,
                stem,
                p1,
                p2,
                number,
            ),
        forall|p1: Option<Seq<char>>, p2: Option<Seq<char>>|
            #![trigger clip_name(MatchResult::Lose, stem, p1, p2, number)]
            clip_name(MatchResult::Lose, stem, p1, p2, number) == "lose-"@ + clip_name(
                MatchResult::Skipped,
                stem,
                p1,
                p2,
                number,
            ),
        forall|p1: Option<Seq<char>>, p2: Option<Seq<char>>|
            #![trigger clip_name(MatchResult::Unknown, stem, p1, p2, number)]
            clip_name(MatchResult::Unknown, stem, p1, p2, number) == "unknown-"@ + clip_name(
                MatchResult::Skipped,
                stem,
                p1,
                p2,
                number,
            ),
{
    let tail = "-part"@ + zero_padded(number, 3) + ".mp4"@;
    assert(Seq::<char>::empty() + stem =~= stem);
    assert(clip_name(MatchResult::Skipped, stem, None, None, number) =~= stem + tail);
    assert(clip_name(MatchResult::Skipped, stem, Some(a), Some(b), number) =~= stem + "-"@ + a
        + "-vs-"@ + b + tail);
    assert(clip_name(MatchResult::Skipped, stem, Some(a), None, number) =~= stem + "-"@ + a
        + "-vs-Unknown"@ + tail);
    assert(clip_name(MatchResult::Skipped, stem, None, Some(b), number) =~= stem
        + "-Unknown-vs-"@ + b + tail);
    assert forall|p1: Option<Seq<char>>, p2: Option<Seq<char>>|
        #![trigger clip_name(MatchResult::Win, stem, p1, p2, number)]
        clip_name(MatchResult::Win, stem, p1, p2, number) == "win-"@ + clip_name(
            MatchResult::Skipped,
            stem,
            p1,
            p2,
            number,
        ) by {
        assert(clip_name(MatchResult::Win, stem, p1, p2, number) =~= "win-"@ + clip_name(
            MatchResult::Skipped,
            stem,
            p1,
            p2,
            number,
        ));
    }
    assert forall|p1: Option<Seq<char>>, p2: Option<Seq<char>>|
        #![trigger clip_name(MatchResult::Lose, stem, p1, p2, number)]
        clip_name(MatchResult::Lose, stem, p1, p2, number) == "lose-"@ + clip_name(
            MatchResult::Skipped,
            stem,
            p1,
            p2,
            number,
        ) by {
        assert(clip_name(MatchResult::Lose, stem, p1, p2, number) =~= "lose-"@ + clip_name(
            MatchResult::Skipped,
            stem,
            p1,
            p2,
            number,
        ));
    }
    assert forall|p1: Option<Seq<char>>, p2: Option<Seq<char>>|
        #![trigger clip_name(MatchResult::Unknown, stem, p1, p2, number)]
        clip_name(MatchResult::Unknown, stem, p1, p2, number) == "unknown-"@ + clip_name(
            MatchResult::Skipped,
            stem,
            p1,
            p2,
            number,
        ) by {
        assert(clip_name(MatchResult::Unknown, stem, p1, p2, number) =~= "unknown-"@ + clip_name(
            MatchResult::Skipped,
            stem,
            p1,
            p2,
            number,
        ));
    }
}

proof fn lemma_two_digit_width(n: nat)
    ensures
        zero_padded(n, 2).len() >= 2,
        n < 100 ==> zero_padded(n, 2).len() == 2,
{
    if n < 10 {
        assert(decimal(n).len() == 1);
    } else if n < 100 {
        assert(n / 10 < 10);
        assert(decimal(n / 10).len() == 1);
        assert(decimal(n).len() == 2);
    }
}

/// A rendered duration reads `H..H:MM:SS`: the last two colon-separated
/// fields have two digits each, and the three fields are the hours, the
/// minutes of the hour and the seconds of the minute.
pub proof fn law_duration_text(secs: nat)
    ensures
        ({
            let t = duration_text(secs);
            let l = t.len() as int;
            &&& l >= 8
            &&& t[l - 3] == ':' && t[l - 6] == ':'
            &&& forall|k: int|
                0 <= k < l && k != l - 3 && k != l - 6 ==> is_ascii_digit(#[trigger] t[k])
            &&& digit_run_value(t.subrange(0, l - 6)) == secs / 3600
            &&& digit_run_value(t.subrange(l - 5, l - 3)) == (secs % 3600) / 60
            &&& digit_run_value(t.subrange(l - 2, l)) == secs % 60
            &&& (secs < 360000 ==> l == 8)
        }),
{
    let hv = secs / 3600;
    let mv = (secs % 3600) / 60;
    let sv = secs % 60;
    law_duration_fields(secs);
    assert(secs < 360000 ==> hv < 100) by (nonlinear_arith)
        requires
            hv == secs / 3600,
    ;
    let h = zero_padded(hv, 2);
    let m = zero_padded(mv, 2);
    let z = zero_padded(sv, 2);
    lemma_two_digit_width(hv);
    lemma_two_digit_width(mv);
    lemma_two_digit_width(sv);
    law_zero_padded_value(hv, 2);
    law_zero_padded_value(mv, 2);
    law_zero_padded_value(sv, 2);
    let t = duration_text(secs);
    assert(t == h + seq![':'] + m + seq![':'] + z);
    let l = t.len() as int;
    let hl = h.len() as int;
    assert(l == hl + 6);
    assert(t.subrange(0, l - 6) =~= h);
    assert(t.subrange(l - 5, l - 3) =~= m);
    assert(t.subrange(l - 2, l) =~= z);
    assert forall|k: int| 0 <= k < l && k != l - 3 && k != l - 6 implies is_ascii_digit(
        #[trigger] t[k],
    ) by {
        if k < hl {
            assert(t[k] == h[k]);
        } else if k < hl + 3 {
            assert(t[k] == m[k - hl - 1]);
        } else {
            assert(t[k] == z[k - hl - 4]);
        }
    }
}

} // verus!
