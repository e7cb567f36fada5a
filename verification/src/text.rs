//! Small string helpers shared by the modules that build text.

use vstd::prelude::*;

verus! {

/// Appends one character with `String::push` (std gives it no specification
/// in vstd); the contract claims the string grows by exactly that character.
#[verifier::external_body]
pub(crate) fn push_char(s: &mut String, c: char)
    ensures
        final(s)@ == old(s)@.push(c),
{
    s.push(c);
}

/// The decimal digits of a natural number (no leading zeros; "0" for zero).
pub open spec fn digits(n: nat) -> Seq<char>
    decreases n,
{
    if n < 10 {
        seq![digit_char(n)]
    } else {
        digits(n / 10).push(digit_char(n % 10))
    }
}

pub open spec fn digit_char(d: nat) -> char {
    if d == 0 {
        '0'
    } else if d == 1 {
        '1'
    } else if d == 2 {
        '2'
    } else if d == 3 {
        '3'
    } else if d == 4 {
        '4'
    } else if d == 5 {
        '5'
    } else if d == 6 {
        '6'
    } else if d == 7 {
        '7'
    } else if d == 8 {
        '8'
    } else {
        '9'
    }
}

/// How Rust's `Display` writes an integer: optional minus sign, then digits.
pub open spec fn decimal(n: int) -> Seq<char> {
    if n < 0 {
        seq!['-'] + digits((-n) as nat)
    } else {
        digits(n as nat)
    }
}

fn digit(d: u64) -> (c: char)
    requires
        d < 10,
    ensures
        c == digit_char(d as nat),
{
    if d == 0 {
        '0'
    } else if d == 1 {
        '1'
    } else if d == 2 {
        '2'
    } else if d == 3 {
        '3'
    } else if d == 4 {
        '4'
    } else if d == 5 {
        '5'
    } else if d == 6 {
        '6'
    } else if d == 7 {
        '7'
    } else if d == 8 {
        '8'
    } else {
        '9'
    }
}

fn push_digits(s: &mut String, n: u64)
    ensures
        final(s)@ == old(s)@ + digits(n as nat),
    decreases n,
{
    if n < 10 {
        push_char(s, digit(n));
        assert(final(s)@ =~= old(s)@ + digits(n as nat));
    } else {
        push_digits(s, n / 10);
        let ghost mid = s@;
        push_char(s, digit(n % 10));
        assert(final(s)@ =~= old(s)@ + digits(n as nat));
    }
}

/// Appends the decimal form of `n`.
pub fn push_int(s: &mut String, n: i64)
    ensures
        final(s)@ == old(s)@ + decimal(n as int),
{
    if n < 0 {
        push_char(s, '-');
        let mag: u64 = if n == i64::MIN { 9223372036854775808u64 } else { (-n) as u64 };
        let ghost mid = s@;
        push_digits(s, mag);
        assert(final(s)@ =~= old(s)@ + decimal(n as int));
    } else {
        push_digits(s, n as u64);
    }
}

/// Appends the decimal form of a natural number.
pub fn push_nat(s: &mut String, n: u64)
    ensures
        final(s)@ == old(s)@ + decimal(n as int),
{
    push_digits(s, n);
}

/// Appends a string slice.
pub fn push_str(s: &mut String, t: &str)
    ensures
        final(s)@ == old(s)@ + t@,
{
    s.append(t);
}

// ---------- word wrap ----------

/// Unicode's `White_Space` characters (what `char::is_whitespace` tests).
pub open spec fn white(c: char) -> bool {
    ||| ('\u{9}' <= c && c <= '\u{d}')
    ||| c == ' '
    ||| c == '\u{85}'
    ||| c == '\u{a0}'
    ||| c == '\u{1680}'
    ||| ('\u{2000}' <= c && c <= '\u{200a}')
    ||| c == '\u{2028}'
    ||| c == '\u{2029}'
    ||| c == '\u{202f}'
    ||| c == '\u{205f}'
    ||| c == '\u{3000}'
}

/// Whether `c` is whitespace (see `white`).
pub fn is_white(c: char) -> (b: bool)
    ensures
        b == white(c),
{
    ('\u{9}' <= c && c <= '\u{d}') || c == ' ' || c == '\u{85}' || c == '\u{a0}' || c == '\u{1680}' || ('\u{2000}'
        <= c && c <= '\u{200a}') || c == '\u{2028}' || c == '\u{2029}' || c == '\u{202f}' || c == '\u{205f}' || c
        == '\u{3000}'
}

/// The words of `s`: its maximal runs of non-whitespace characters, in order.
pub open spec fn words(s: Seq<char>) -> Seq<Seq<char>>
    decreases s.len(),
{
    if s.len() == 0 {
        Seq::empty()
    } else {
        let w = words(s.drop_last());
        let c = s.last();
        if white(c) {
            w
        } else if s.len() >= 2 && !white(s[s.len() - 2]) {
            w.drop_last().push(w.last().push(c))
        } else {
            w.push(seq![c])
        }
    }
}

/// Filling lines with `ws` greedily: a word goes on the current line, after
/// a space, unless that would make a non-empty line longer than `max`, in
/// which case the line is finished first. Returns the finished lines and
/// the current one.
pub open spec fn wrap_words(ws: Seq<Seq<char>>, max: int) -> (Seq<Seq<char>>, Seq<char>)
    decreases ws.len(),
{
    if ws.len() == 0 {
        (Seq::empty(), Seq::empty())
    } else {
        let prev = wrap_words(ws.drop_last(), max);
        let w = ws.last();
        let broke = prev.1.len() > 0 && prev.1.len() + 1 + w.len() > max;
        let lines = if broke { prev.0.push(prev.1) } else { prev.0 };
        let cur = if broke { Seq::empty() } else { prev.1 };
        (lines, (if cur.len() > 0 { cur.push(' ') } else { cur }) + w)
    }
}

/// The lines of `s` wrapped at `max` characters (words longer than that get
/// a line of their own); a single empty line when `s` has no words.
pub open spec fn wrapped(s: Seq<char>, max: int) -> Seq<Seq<char>> {
    let r = wrap_words(words(s), max);
    let lines = if r.1.len() > 0 { r.0.push(r.1) } else { r.0 };
    if lines.len() == 0 { seq![Seq::empty()] } else { lines }
}

pub open spec fn texts(v: Seq<String>) -> Seq<Seq<char>> {
    v.map_values(|s: String| s@)
}

fn split_words(text: &str) -> (ws: Vec<String>)
    ensures
        texts(ws@) == words(text@),
{
    let ghost s = text@;
    let n = text.unicode_len();
    let mut done: Vec<String> = Vec::new();
    let mut cur = String::new();
    let mut i: usize = 0;
    while i < n
        invariant
            s == text@,
            n == s.len(),
            i <= n,
            words(s.take(i as int)) == texts(done@) + (if cur@.len() > 0 { seq![cur@] } else { Seq::empty() }),
            cur@.len() > 0 <==> (i > 0 && !white(s[i - 1])),
        decreases n - i,
    {
        let c = text.get_char(i);
        let ghost t = s.take(i + 1);
        assert(t.drop_last() =~= s.take(i as int));
        assert(t.last() == c);
        if is_white(c) {
            if cur.unicode_len() > 0 {
                let ghost d = texts(done@);
                let ghost cv = cur@;
                done.push(cur);
                cur = String::new();
                assert(texts(done@) =~= d.push(cv));
                assert(d + seq![cv] =~= d.push(cv));
            }
        } else {
            let ghost d = texts(done@);
            let ghost cv = cur@;
            if cur.unicode_len() > 0 {
                assert(t[t.len() - 2] == s[i - 1]);
                push_char(&mut cur, c);
                assert((d + seq![cv]).drop_last() =~= d);
                assert(d + seq![cv.push(c)] =~= (d + seq![cv]).drop_last().push(cv.push(c)));
            } else {
                push_char(&mut cur, c);
                assert(cur@ =~= seq![c]);
                assert(d + seq![seq![c]] =~= d.push(seq![c]));
                assert(d + Seq::<Seq<char>>::empty() =~= d);
            }
        }
        i = i + 1;
    }
    assert(s.take(i as int) =~= s);
    if cur.unicode_len() > 0 {
        let ghost d = texts(done@);
        let ghost cv = cur@;
        done.push(cur);
        assert(texts(done@) =~= d + seq![cv]);
    } else {
        assert(texts(done@) + Seq::<Seq<char>>::empty() =~= texts(done@));
    }
    done
}

/// Splits `text` into lines of at most `max_chars` characters at word
/// boundaries (see `wrapped`).
pub fn wrap_text(text: &str, max_chars: usize) -> (lines: Vec<String>)
    ensures
        texts(lines@) == wrapped(text@, max_chars as int),
{
    let ws = split_words(text);
    let ghost wv = texts(ws@);
    let mut lines: Vec<String> = Vec::new();
    let mut cur = String::new();
    let mut k: usize = 0;
    while k < ws.len()
        invariant
            wv == texts(ws@),
            wv == words(text@),
            k <= ws@.len(),
            (texts(lines@), cur@) == wrap_words(wv.take(k as int), max_chars as int),
        decreases ws@.len() - k,
    {
        let w = ws[k].as_str();
        let ghost prev = wrap_words(wv.take(k as int), max_chars as int);
        assert(wv.take(k + 1).drop_last() =~= wv.take(k as int));
        assert(wv.take(k + 1).last() == w@);
        let cl = cur.unicode_len();
        let wl = w.unicode_len();
        if cl > 0 && (cl as u128) + 1 + (wl as u128) > max_chars as u128 {
            let ghost lv = texts(lines@);
            lines.push(cur);
            cur = String::new();
            assert(texts(lines@) =~= lv.push(prev.1));
        }
        let ghost before = cur@;
        if cur.unicode_len() > 0 {
            push_char(&mut cur, ' ');
        }
        push_str(&mut cur, w);
        k = k + 1;
    }
    assert(wv.take(k as int) =~= wv);
    if cur.unicode_len() > 0 {
        let ghost lv = texts(lines@);
        let ghost cv = cur@;
        lines.push(cur);
        assert(texts(lines@) =~= lv.push(cv));
    }
    if lines.len() == 0 {
        lines.push(String::new());
        assert(texts(lines@) =~= seq![Seq::<char>::empty()]);
    }
    lines
}

/// A line that keeps to the width, or is a whole word of `ws`.
pub open spec fn fits_or_word(l: Seq<char>, max: int, ws: Seq<Seq<char>>) -> bool {
    l.len() <= max || ws.contains(l)
}

proof fn lemma_wrap_words_width(ws: Seq<Seq<char>>, max: int)
    requires
        max >= 0,
    ensures
        forall|i: int| 0 <= i < wrap_words(ws, max).0.len() ==> fits_or_word(#[trigger] wrap_words(ws, max).0[i], max, ws),
        fits_or_word(wrap_words(ws, max).1, max, ws),
    decreases ws.len(),
{
    if ws.len() > 0 {
        let t = ws.drop_last();
        lemma_wrap_words_width(t, max);
        let prev = wrap_words(t, max);
        let w = ws.last();
        assert(ws[ws.len() - 1] == w);
        assert forall|l: Seq<char>| fits_or_word(l, max, t) implies fits_or_word(l, max, ws) by {
            if t.contains(l) {
                let k = choose|k: int| 0 <= k < t.len() && t[k] == l;
                assert(ws[k] == l);
            }
        }
        let r = wrap_words(ws, max);
        assert forall|i: int| 0 <= i < r.0.len() implies fits_or_word(#[trigger] r.0[i], max, ws) by {
            if i < prev.0.len() {
                assert(fits_or_word(prev.0[i], max, t));
            } else {
                assert(fits_or_word(prev.1, max, t));
            }
        }
        let broke = prev.1.len() > 0 && prev.1.len() + 1 + w.len() > max;
        let cur: Seq<char> = if broke { Seq::empty() } else { prev.1 };
        if cur.len() > 0 {
            assert((cur.push(' ') + w).len() == cur.len() + 1 + w.len());
        } else {
            assert(cur + w =~= w);
        }
    }
}

/// Wrapped lines keep to the width: each line is at most `max` characters
/// long, unless it is a single word that is longer.
pub proof fn lemma_wrap_width(s: Seq<char>, max: int, k: int)
    requires
        max >= 0,
        0 <= k < wrapped(s, max).len(),
    ensures
        wrapped(s, max)[k].len() <= max || words(s).contains(wrapped(s, max)[k]),
{
    let ws = words(s);
    lemma_wrap_words_width(ws, max);
    let r = wrap_words(ws, max);
    if k < r.0.len() {
        assert(fits_or_word(r.0[k], max, ws));
    }
}

} // verus!
