use vstd::prelude::*;

use crate::text::{chars_of, push_char};

verus! {

/// Unicode upper-casing of a string, as `str::to_uppercase` performs it.
pub uninterp spec fn uppercase(s: Seq<char>) -> Seq<char>;

/// Calls `str::to_uppercase`; the result is named `uppercase` of the input.
#[verifier::external_body]
fn to_uppercase(s: &str) -> (r: String)
    ensures
        r@ == uppercase(s@),
{
    s.to_uppercase()
}

/// Characters that can occur in a character name: ASCII letters and digits,
/// and `- ? # .`.
pub open spec fn name_char(c: char) -> bool {
    ||| 'A' <= c <= 'Z'
    ||| 'a' <= c <= 'z'
    ||| '0' <= c <= '9'
    ||| c == '-'
    ||| c == '?'
    ||| c == '#'
    ||| c == '.'
}

/// The name characters of `s`, in order.
pub open spec fn name_chars(s: Seq<char>) -> Seq<char>
    decreases s.len(),
{
    if s.len() == 0 {
        s
    } else if name_char(s.last()) {
        name_chars(s.drop_last()).push(s.last())
    } else {
        name_chars(s.drop_last())
    }
}

/// Keeps the characters of an (already upper-cased) text that can occur in
/// a character name.
pub fn keep_name_chars(upper: &str) -> (r: String)
    ensures
        r@ == name_chars(upper@),
{
    let v = chars_of(upper);
    let mut r = String::new();
    let mut i: usize = 0;
    while i < v.len()
        invariant
            i <= v@.len(),
            v@ == upper@,
            r@ == name_chars(v@.take(i as int)),
        decreases v@.len() - i,
    {
        let c = v[i];
        proof {
            assert(v@.take(i + 1).drop_last() =~= v@.take(i as int));
        }
        if ('A' <= c && c <= 'Z') || ('a' <= c && c <= 'z') || ('0' <= c && c <= '9') || c == '-'
            || c == '?' || c == '#' || c == '.' {
            push_char(&mut r, c);
        }
        i = i + 1;
    }
    proof {
        assert(v@.take(v@.len() as int) =~= v@);
    }
    r
}

/// Name characters spelled out: ASCII letters and digits and `- ? # .`.
proof fn lemma_name_char_is(c: char)
    ensures
        name_char(c) <==> (('A' <= c && c <= 'Z') || ('a' <= c && c <= 'z') || ('0' <= c && c
            <= '9') || c == '-' || c == '?' || c == '#' || c == '.'),
{
}

/// Keeping name characters is filtering by the characters allowed in a name
/// (ASCII letters and digits, `-`, `?`, `#`, `.`): only such characters come
/// out, a text made of them alone comes out unchanged, and the filter works
/// piece by piece along the text.
pub proof fn law_name_chars_filter(s: Seq<char>, t: Seq<char>)
    ensures
        forall|k: int|
            0 <= k < name_chars(s).len() ==> {
                let c = #[trigger] name_chars(s)[k];
                ('A' <= c && c <= 'Z') || ('a' <= c && c <= 'z') || ('0' <= c && c <= '9') || c
                    == '-' || c == '?' || c == '#' || c == '.'
            },
        (forall|k: int|
            0 <= k < s.len() ==> {
                let c = #[trigger] s[k];
                ('A' <= c && c <= 'Z') || ('a' <= c && c <= 'z') || ('0' <= c && c <= '9') || c
                    == '-' || c == '?' || c == '#' || c == '.'
            }) ==> name_chars(s) == s,
        name_chars(s + t) == name_chars(s) + name_chars(t),
    decreases s.len() + t.len(),
{
    if s.len() > 0 {
        law_name_chars_filter(s.drop_last(), Seq::empty());
        lemma_name_char_is(s.last());
        let r = name_chars(s);
        let r0 = name_chars(s.drop_last());
        assert forall|k: int| 0 <= k < r.len() implies {
            let c = #[trigger] r[k];
            ('A' <= c && c <= 'Z') || ('a' <= c && c <= 'z') || ('0' <= c && c <= '9') || c == '-'
                || c == '?' || c == '#' || c == '.'
        } by {
            if k < r0.len() {
                assert(r[k] == r0[k]);
            }
        }
        if forall|k: int|
            0 <= k < s.len() ==> {
                let c = #[trigger] s[k];
                ('A' <= c && c <= 'Z') || ('a' <= c && c <= 'z') || ('0' <= c && c <= '9') || c
                    == '-' || c == '?' || c == '#' || c == '.'
            } {
            assert forall|k: int| 0 <= k < s.drop_last().len() implies {
                let c = #[trigger] s.drop_last()[k];
                ('A' <= c && c <= 'Z') || ('a' <= c && c <= 'z') || ('0' <= c && c <= '9') || c
                    == '-' || c == '?' || c == '#' || c == '.'
            } by {
                assert(s.drop_last()[k] == s[k]);
            }
            assert(s[s.len() - 1] == s.last());
            assert(s.drop_last().push(s.last()) =~= s);
        }
    }
    if t.len() > 0 {
        law_name_chars_filter(s, t.drop_last());
        assert((s + t).drop_last() =~= s + t.drop_last());
        assert((s + t).last() == t.last());
        if name_char(t.last()) {
            assert(name_chars(s) + name_chars(t.drop_last()).push(t.last()) =~= (name_chars(s)
                + name_chars(t.drop_last())).push(t.last()));
        }
    } else {
        assert(s + t =~= s);
        assert(name_chars(s) + name_chars(t) =~= name_chars(s));
    }
}

/// Normalizes recognized text for matching against character names:
/// upper-cases it and keeps only name characters.
pub fn clean_ocr_text(raw: &str) -> (r: String)
    ensures
        r@ == name_chars(uppercase(raw@)),
{
    let upper = to_uppercase(raw);
    keep_name_chars(upper.as_str())
}

/// `needle` occurs in `hay` as a contiguous run (`str::contains`).
pub open spec fn occurs_in(needle: Seq<char>, hay: Seq<char>) -> bool {
    exists|i: int| 0 <= i && i + needle.len() <= hay.len() && #[trigger] hay.subrange(i, i + needle.len()) == needle
}

fn occurs_at(needle: &Vec<char>, hay: &Vec<char>, i: usize) -> (b: bool)
    requires
        i + needle@.len() <= hay@.len(),
    ensures
        b == (hay@.subrange(i as int, i + needle@.len()) == needle@),
{
    let hay_len = hay.len();
    let mut k: usize = 0;
    while k < needle.len()
        invariant
            k <= needle@.len(),
            hay_len == hay@.len(),
            i + needle@.len() <= hay@.len(),
            forall|j: int| 0 <= j < k ==> hay@[i + j] == needle@[j],
        decreases needle@.len() - k,
    {
        if hay[i + k] != needle[k] {
            proof {
                assert(hay@.subrange(i as int, i + needle@.len())[k as int] != needle@[k as int]);
            }
            return false;
        }
        k = k + 1;
    }
    proof {
        assert(hay@.subrange(i as int, i + needle@.len()) =~= needle@);
    }
    true
}

fn occurs(needle: &Vec<char>, hay: &Vec<char>) -> (b: bool)
    ensures
        b == occurs_in(needle@, hay@),
{
    if needle.len() == 0 {
        proof {
            assert(hay@.subrange(0int, 0int + needle@.len()) =~= needle@);
        }
        return true;
    }
    if needle.len() > hay.len() {
        return false;
    }
    let hay_len = hay.len();
    let last = hay_len - needle.len();
    let mut i: usize = 0;
    while i <= last
        invariant
            hay_len == hay@.len(),
            last == hay@.len() - needle@.len(),
            0 < needle@.len() <= hay@.len(),
            i <= last + 1,
            forall|j: int| 0 <= j < i ==> #[trigger] hay@.subrange(j, j + needle@.len()) != needle@,
        decreases last + 1 - i,
    {
        if occurs_at(needle, hay, i) {
            return true;
        }
        i = i + 1;
    }
    false
}

/// One text contains the other: the bonus condition when matching recognized
/// text against a character name.
pub fn names_overlap(text: &str, name: &str) -> (b: bool)
    ensures
        b == (occurs_in(name@, text@) || occurs_in(text@, name@)),
{
    let t = chars_of(text);
    let n = chars_of(name);
    occurs(&n, &t) || occurs(&t, &n)
}

/// Whether greedy CTC decoding keeps time step `t`: its best class is not the
/// blank (0), differs from the previous step's best class (0 before the
/// first step), and has a character.
pub open spec fn ctc_keeps(best: Seq<usize>, n_chars: usize, t: int) -> bool {
    let prev = if t == 0 {
        0usize
    } else {
        best[t - 1]
    };
    best[t] != 0 && best[t] != prev && best[t] < n_chars
}

/// The time steps greedy CTC decoding keeps, in order.
pub open spec fn ctc_positions(best: Seq<usize>, n_chars: usize) -> Seq<usize>
    decreases best.len(),
{
    if best.len() == 0 {
        Seq::empty()
    } else {
        let r = ctc_positions(best.drop_last(), n_chars);
        if ctc_keeps(best, n_chars, best.len() - 1) {
            r.push((best.len() - 1) as usize)
        } else {
            r
        }
    }
}

/// Greedy CTC decoding of the best class per time step: the steps whose class
/// starts a new run of a non-blank class with a known character.
pub fn ctc_collapse(best: &[usize], n_chars: usize) -> (kept: Vec<usize>)
    ensures
        kept@ == ctc_positions(best@, n_chars),
{
    let mut kept: Vec<usize> = Vec::new();
    let mut prev: usize = 0;
    let mut t: usize = 0;
    while t < best.len()
        invariant
            t <= best@.len(),
            kept@ == ctc_positions(best@.take(t as int), n_chars),
            prev == (if t == 0 {
                0usize
            } else {
                best@[t - 1]
            }),
        decreases best@.len() - t,
    {
        let cls = best[t];
        proof {
            let pre = best@.take(t + 1);
            assert(pre.drop_last() =~= best@.take(t as int));
            assert(ctc_keeps(pre, n_chars, t as int) == (cls != 0 && cls != prev && cls < n_chars));
        }
        if cls != 0 && cls != prev && cls < n_chars {
            kept.push(t);
        }
        prev = cls;
        t = t + 1;
    }
    proof {
        assert(best@.take(best@.len() as int) =~= best@);
    }
    kept
}

/// Every kept step starts a new run: its class is non-blank, known, and
/// different from the class just before it.
pub proof fn law_ctc_kept_steps(best: Seq<usize>, n_chars: usize)
    requires
        best.len() <= usize::MAX,
    ensures
        forall|k: int|
            0 <= k < ctc_positions(best, n_chars).len() ==> {
                let t = #[trigger] ctc_positions(best, n_chars)[k] as int;
                &&& 0 <= t < best.len()
                &&& ctc_keeps(best, n_chars, t)
            },
        forall|k: int, j: int|
            0 <= k < j < ctc_positions(best, n_chars).len() ==> #[trigger] ctc_positions(
                best,
                n_chars,
            )[k] < #[trigger] ctc_positions(best, n_chars)[j],
    decreases best.len(),
{
    if best.len() > 0 {
        let b0 = best.drop_last();
        law_ctc_kept_steps(b0, n_chars);
        let r = ctc_positions(b0, n_chars);
        let full = ctc_positions(best, n_chars);
        let kept_last = ctc_keeps(best, n_chars, best.len() - 1);
        assert(full == if kept_last {
            r.push((best.len() - 1) as usize)
        } else {
            r
        });
        assert forall|k: int| 0 <= k < full.len() implies {
            let t = #[trigger] full[k] as int;
            &&& 0 <= t < best.len()
            &&& ctc_keeps(best, n_chars, t)
        } by {
            if k < r.len() {
                assert(full[k] == r[k]);
                let t = r[k] as int;
                assert(ctc_keeps(b0, n_chars, t));
                assert(best[t] == b0[t]);
                if t > 0 {
                    assert(best[t - 1] == b0[t - 1]);
                }
            } else {
                assert(kept_last);
                assert(full[k] == best.len() - 1);
            }
        }
        assert forall|k: int, j: int| 0 <= k < j < full.len() implies #[trigger] full[k]
            < #[trigger] full[j] by {
            if j < r.len() {
                assert(full[k] == r[k] && full[j] == r[j]);
            } else {
                assert(kept_last);
                assert(full[k] == r[k]);
                assert(full[j] == best.len() - 1);
                assert(r[k] < b0.len());
            }
        }
    }
}

/// Greedy CTC decoding keeps exactly the steps whose best class is not the
/// blank (0), has a character (is below `n_chars`), and differs from the best
/// class of the step before; it keeps them in time order.
pub proof fn law_ctc_positions_exact(best: Seq<usize>, n_chars: usize)
    requires
        best.len() <= usize::MAX,
    ensures
        forall|k: int|
            0 <= k < ctc_positions(best, n_chars).len() ==> {
                let t = #[trigger] ctc_positions(best, n_chars)[k] as int;
                &&& 0 <= t < best.len()
                &&& best[t] != 0
                &&& best[t] < n_chars
                &&& (t == 0 || best[t] != best[t - 1])
            },
        forall|t: int|
            0 <= t < best.len() && #[trigger] best[t] != 0 && best[t] < n_chars && (t == 0 || best[t]
                != best[t - 1]) ==> ctc_positions(best, n_chars).contains(t as usize),
        forall|k: int, j: int|
            0 <= k < j < ctc_positions(best, n_chars).len() ==> #[trigger] ctc_positions(
                best,
                n_chars,
            )[k] < #[trigger] ctc_positions(best, n_chars)[j],
    decreases best.len(),
{
    law_ctc_kept_steps(best, n_chars);
    if best.len() > 0 {
        let b0 = best.drop_last();
        law_ctc_positions_exact(b0, n_chars);
        let r = ctc_positions(b0, n_chars);
        let full = ctc_positions(best, n_chars);
        assert forall|t: int|
            0 <= t < best.len() && #[trigger] best[t] != 0 && best[t] < n_chars && (t == 0 || best[t]
                != best[t - 1]) implies full.contains(t as usize) by {
            if t < b0.len() {
                assert(b0[t] == best[t]);
                if t > 0 {
                    assert(b0[t - 1] == best[t - 1]);
                }
                assert(r.contains(t as usize));
                let k = choose|k: int| 0 <= k < r.len() && r[k] == t as usize;
                if ctc_keeps(best, n_chars, best.len() - 1) {
                    assert(full == r.push((best.len() - 1) as usize));
                    assert(full[k] == r[k]);
                } else {
                    assert(full == r);
                }
            } else {
                assert(ctc_keeps(best, n_chars, t));
                assert(full == r.push((best.len() - 1) as usize));
                assert(full[full.len() - 1] == t as usize);
            }
        }
    }
}

/// The concatenation of the texts, in order.
pub open spec fn joined(parts: Seq<Seq<char>>) -> Seq<char>
    decreases parts.len(),
{
    if parts.len() == 0 {
        Seq::empty()
    } else {
        joined(parts.drop_last()) + parts.last()
    }
}

/// The text of a greedy CTC decoding: the character of each kept step's
/// class, in order.
pub open spec fn ctc_text_spec(best: Seq<usize>, chars: Seq<Seq<char>>) -> Seq<char> {
    joined(ctc_positions(best, chars.len() as usize).map_values(|t: usize| chars[best[t as int] as int]))
}

/// Decodes the best class per time step into text, with `characters[c]`
/// the text of class `c`.
pub fn ctc_text(best: &[usize], characters: &Vec<String>) -> (r: String)
    ensures
        r@ == ctc_text_spec(best@, characters@.map_values(|s: String| s@)),
{
    let ghost chars = characters@.map_values(|s: String| s@);
    let kept = ctc_collapse(best, characters.len());
    let n_steps = best.len();
    proof {
        assert(best@.len() == n_steps);
        law_ctc_kept_steps(best@, characters.len());
    }
    let ghost parts = kept@.map_values(|t: usize| chars[best@[t as int] as int]);
    let mut r = String::new();
    let mut i: usize = 0;
    while i < kept.len()
        invariant
            i <= kept@.len(),
            kept@ == ctc_positions(best@, characters@.len() as usize),
            chars == characters@.map_values(|s: String| s@),
            parts == kept@.map_values(|t: usize| chars[best@[t as int] as int]),
            forall|k: int|
                0 <= k < kept@.len() ==> {
                    let t = #[trigger] kept@[k] as int;
                    &&& 0 <= t < best@.len()
                    &&& ctc_keeps(best@, characters@.len() as usize, t)
                },
            r@ == joined(parts.take(i as int)),
        decreases kept@.len() - i,
    {
        let t = kept[i];
        let c = best[t];
        proof {
            assert(ctc_keeps(best@, characters@.len() as usize, t as int));
            assert(parts.take(i + 1).drop_last() =~= parts.take(i as int));
        }
        r.append(characters[c].as_str());
        i = i + 1;
    }
    proof {
        assert(parts.take(kept@.len() as int) =~= parts);
    }
    r
}

} // verus!
