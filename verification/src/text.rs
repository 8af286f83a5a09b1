//! Character classes, string normalisation and small text builders.

use vstd::prelude::*;

verus! {

/// ASCII letter (`char::is_ascii_alphabetic`).
pub open spec fn is_ascii_letter(c: char) -> bool {
    ('A' <= c && c <= 'Z') || ('a' <= c && c <= 'z')
}

/// Upper-case form of an ASCII letter; other characters are kept.
pub open spec fn ascii_upper(c: char) -> char {
    if 'a' <= c && c <= 'z' {
        ((c as u32) - 32) as char
    } else {
        c
    }
}

/// The letters of `s` that a word guess keeps: ASCII letters, upper-cased, in order.
pub open spec fn word_form(s: Seq<char>) -> Seq<char>
    decreases s.len(),
{
    if s.len() == 0 {
        Seq::empty()
    } else {
        let rest = word_form(s.drop_last());
        if is_ascii_letter(s.last()) {
            rest.push(ascii_upper(s.last()))
        } else {
            rest
        }
    }
}

/// Appends one character to a string (`String::push`).
#[verifier::external_body]
pub(crate) fn push_char(s: &mut String, c: char)
    ensures
        final(s)@ == old(s)@.push(c),
{
    s.push(c);
}

/// The characters of `s`, in order.
pub fn chars_of(s: &str) -> (out: Vec<char>)
    ensures
        out@ == s@,
{
    let mut out: Vec<char> = Vec::new();
    for c in it: s.chars()
        invariant
            out@ == it.seq().take(it.index() as int),
    {
        out.push(c);
    }
    out
}

fn upper_char(c: char) -> (r: char)
    ensures
        r == ascii_upper(c),
{
    if 'a' <= c && c <= 'z' {
        ((c as u8) - 32) as char
    } else {
        c
    }
}

/// Keeps the ASCII letters of `input` and upper-cases them.
pub fn normalize_word(input: &str) -> (out: String)
    ensures
        out@ == word_form(input@),
{
    let chars = chars_of(input);
    let mut out = String::new();
    let mut i: usize = 0;
    while i < chars.len()
        invariant
            i <= chars@.len(),
            chars@ == input@,
            out@ == word_form(input@.take(i as int)),
        decreases chars@.len() - i,
    {
        let c = chars[i];
        assert(input@.take(i + 1).drop_last() =~= input@.take(i as int));
        if ('A' <= c && c <= 'Z') || ('a' <= c && c <= 'z') {
            push_char(&mut out, upper_char(c));
        }
        i = i + 1;
    }
    assert(input@.take(chars@.len() as int) =~= input@);
    out
}


/// `char::is_whitespace`: the Unicode `White_Space` property.
pub open spec fn is_white_space(c: char) -> bool {
    ||| ('\u{9}' <= c && c <= '\u{d}')
    ||| c == ' '
    ||| c == '\u{85}'
    ||| c == '\u{a0}'
    ||| c == '\u{1680}'
    ||| ('\u{2000}' <= c && c <= '\u{200a}')
    ||| c == '\u{2028}'
    ||| c == '\u{2029}'
    ||| c == '\u{202f}'
    ||| c == '\u{205f}'
    ||| c == '\u{3000}'
}

/// `char::is_ascii_whitespace`: space, tab, line feed, form feed, carriage return.
pub open spec fn is_ascii_space(c: char) -> bool {
    c == ' ' || c == '\t' || c == '\n' || c == '\u{c}' || c == '\r'
}

/// `char::is_ascii_alphanumeric`.
pub open spec fn is_ascii_alnum(c: char) -> bool {
    is_ascii_letter(c) || ('0' <= c && c <= '9')
}

/// Lower-case form of an ASCII letter; other characters are kept.
pub open spec fn ascii_lower(c: char) -> char {
    if 'A' <= c && c <= 'Z' {
        ((c as u32) + 32) as char
    } else {
        c
    }
}

/// `s` without its leading white space.
pub open spec fn trim_start(s: Seq<char>) -> Seq<char>
    decreases s.len(),
{
    if s.len() > 0 && is_white_space(s[0]) {
        trim_start(s.drop_first())
    } else {
        s
    }
}

/// `s` without its trailing white space.
pub open spec fn trim_end(s: Seq<char>) -> Seq<char>
    decreases s.len(),
{
    if s.len() > 0 && is_white_space(s.last()) {
        trim_end(s.drop_last())
    } else {
        s
    }
}

/// Every character of `s` is white space.
pub open spec fn all_white(s: Seq<char>) -> bool {
    forall|i: int| 0 <= i < s.len() ==> is_white_space(#[trigger] s[i])
}

/// White space in front of a text that starts with other than white space is trimmed away.
pub proof fn lemma_trim_start_white_prefix(a: Seq<char>, s: Seq<char>)
    requires
        all_white(a),
        s.len() > 0,
        !is_white_space(s[0]),
    ensures
        trim_start(a + s) == s,
    decreases a.len(),
{
    if a.len() == 0 {
        assert(a + s =~= s);
    } else {
        assert((a + s).drop_first() =~= a.drop_first() + s);
        assert(is_white_space(a[0]));
        lemma_trim_start_white_prefix(a.drop_first(), s);
    }
}

/// White space after a text that ends with other than white space is trimmed away.
pub proof fn lemma_trim_end_white_suffix(s: Seq<char>, b: Seq<char>)
    requires
        all_white(b),
        s.len() > 0,
        !is_white_space(s.last()),
    ensures
        trim_end(s + b) == s,
    decreases b.len(),
{
    if b.len() == 0 {
        assert(s + b =~= s);
    } else {
        assert((s + b).drop_last() =~= s + b.drop_last());
        assert(is_white_space(b[b.len() - 1]));
        lemma_trim_end_white_suffix(s, b.drop_last());
    }
}

/// `str::trim`: `s` without leading and trailing white space.
pub open spec fn trim(s: Seq<char>) -> Seq<char> {
    trim_end(trim_start(s))
}

/// The characters of `s` that an answer comparison keeps: ASCII letters, digits and
/// ASCII white space, with letters lower-cased.
pub open spec fn answer_chars(s: Seq<char>) -> Seq<char>
    decreases s.len(),
{
    if s.len() == 0 {
        Seq::empty()
    } else {
        let rest = answer_chars(s.drop_last());
        let c = s.last();
        if is_ascii_alnum(c) || is_ascii_space(c) {
            rest.push(ascii_lower(c))
        } else {
            rest
        }
    }
}

/// The comparison form of a free-text answer: trimmed, filtered and lower-cased.
pub open spec fn answer_form(s: Seq<char>) -> Seq<char> {
    answer_chars(trim(s))
}

fn white_space_char(c: char) -> (r: bool)
    ensures
        r == is_white_space(c),
{
    ('\u{9}' <= c && c <= '\u{d}') || c == ' ' || c == '\u{85}' || c == '\u{a0}' || c
        == '\u{1680}' || ('\u{2000}' <= c && c <= '\u{200a}') || c == '\u{2028}' || c == '\u{2029}'
        || c == '\u{202f}' || c == '\u{205f}' || c == '\u{3000}'
}

fn lower_char(c: char) -> (r: char)
    ensures
        r == ascii_lower(c),
{
    if 'A' <= c && c <= 'Z' {
        ((c as u8) + 32) as char
    } else {
        c
    }
}

/// Bounds `(start, end)` of the trimmed part of `chars`.
pub fn trim_bounds(chars: &Vec<char>) -> (r: (usize, usize))
    ensures
        r.0 <= r.1 <= chars@.len(),
        trim(chars@) == chars@.subrange(r.0 as int, r.1 as int),
{
    let n = chars.len();
    let mut start: usize = 0;
    assert(chars@.skip(0) =~= chars@);
    while start < n && white_space_char(chars[start])
        invariant
            start <= n == chars@.len(),
            trim_start(chars@) == trim_start(chars@.skip(start as int)),
        decreases n - start,
    {
        assert(chars@.skip(start as int).drop_first() =~= chars@.skip(start + 1));
        start = start + 1;
    }
    let mut end: usize = n;
    assert(chars@.skip(start as int) =~= chars@.subrange(start as int, n as int));
    while end > start && white_space_char(chars[end - 1])
        invariant
            start <= end <= n == chars@.len(),
            trim_start(chars@) == chars@.subrange(start as int, n as int),
            trim(chars@) == trim_end(chars@.subrange(start as int, end as int)),
        decreases end - start,
    {
        assert(chars@.subrange(start as int, end as int).drop_last() =~= chars@.subrange(
            start as int,
            end - 1,
        ));
        end = end - 1;
    }
    (start, end)
}

/// Trims `input`, keeps ASCII letters, digits and ASCII white space, and lower-cases it.
pub fn normalize_text(input: &str) -> (out: String)
    ensures
        out@ == answer_form(input@),
{
    let chars = chars_of(input);
    let (start, end) = trim_bounds(&chars);
    let ghost t = chars@.subrange(start as int, end as int);
    let mut out = String::new();
    let mut k: usize = start;
    assert(t.take(0) =~= Seq::<char>::empty());
    while k < end
        invariant
            start <= k <= end <= chars@.len(),
            t == chars@.subrange(start as int, end as int),
            out@ == answer_chars(t.take(k - start)),
        decreases end - k,
    {
        let c = chars[k];
        assert(t.take(k - start + 1).drop_last() =~= t.take(k - start));
        if ('A' <= c && c <= 'Z') || ('a' <= c && c <= 'z') || ('0' <= c && c <= '9') || c == ' '
            || c == '\t' || c == '\n' || c == '\u{c}' || c == '\r' {
            push_char(&mut out, lower_char(c));
        }
        k = k + 1;
    }
    assert(t.take(end - start) =~= t);
    out
}


/// The decimal digit character of `d`.
pub open spec fn digit_char(d: int) -> char {
    ((d + 48) as u32) as char
}

/// Decimal notation of `n`, without sign or leading zeros.
pub open spec fn decimal(n: nat) -> Seq<char>
    decreases n,
{
    if n < 10 {
        seq![digit_char(n as int)]
    } else {
        decimal(n / 10).push(digit_char((n % 10) as int))
    }
}

/// Decimal notation of `n` padded with leading zeros to at least `width` characters.
pub open spec fn zero_padded(n: nat, width: nat) -> Seq<char>
    decreases width,
{
    if decimal(n).len() >= width {
        decimal(n)
    } else {
        seq!['0'] + zero_padded(n, (width - 1) as nat)
    }
}

/// Appends the decimal notation of `n`.
pub fn push_decimal(out: &mut String, n: u64)
    ensures
        final(out)@ == old(out)@ + decimal(n as nat),
    decreases n,
{
    if n >= 10 {
        push_decimal(out, n / 10);
    }
    let d = (n % 10) as u8;
    push_char(out, (d + 48) as char);
    assert(n < 10 ==> n % 10 == n);
}

/// Decimal notation of `n`.
pub fn decimal_text(n: u64) -> (s: String)
    ensures
        s@ == decimal(n as nat),
{
    let mut s = String::new();
    push_decimal(&mut s, n);
    assert(s@ =~= decimal(n as nat));
    s
}

/// Number of decimal digits of `n`.
pub proof fn lemma_decimal_len(n: nat)
    ensures
        decimal(n).len() >= 1,
        n < 10 ==> decimal(n).len() == 1,
        10 <= n < 100 ==> decimal(n).len() == 2,
        100 <= n < 1000 ==> decimal(n).len() == 3,
        1000 <= n ==> decimal(n).len() >= 4,
    decreases n,
{
    if n >= 10 {
        lemma_decimal_len(n / 10);
    }
}

/// Appends the decimal notation of `n` padded with zeros to at least four characters.
pub fn push_padded4(out: &mut String, n: u64)
    ensures
        final(out)@ == old(out)@ + zero_padded(n as nat, 4),
{
    proof {
        lemma_decimal_len(n as nat);
        reveal_with_fuel(zero_padded, 5);
    }
    if n < 1000 {
        push_char(out, '0');
    }
    if n < 100 {
        push_char(out, '0');
    }
    if n < 10 {
        push_char(out, '0');
    }
    push_decimal(out, n);
    proof {
        let z = seq!['0'];
        if n < 10 {
            assert(zero_padded(n as nat, 4) =~= z + (z + (z + decimal(n as nat))));
        } else if n < 100 {
            assert(zero_padded(n as nat, 4) =~= z + (z + decimal(n as nat)));
        } else if n < 1000 {
            assert(zero_padded(n as nat, 4) =~= z + decimal(n as nat));
        }
    }
    assert(out@ =~= old(out)@ + zero_padded(n as nat, 4));
}

/// Appends `n < 100` as two digits.
pub fn push_two_digits(out: &mut String, n: u32)
    requires
        n < 100,
    ensures
        final(out)@ == old(out)@ + seq![digit_char(n as int / 10), digit_char(n as int % 10)],
{
    let tens = (n / 10) as u8;
    let ones = (n % 10) as u8;
    push_char(out, (tens + 48) as char);
    push_char(out, (ones + 48) as char);
    assert(out@ =~= old(out)@ + seq![digit_char(n as int / 10), digit_char(n as int % 10)]);
}

/// The pieces of `t` between occurrences of `sep` (`str::split(sep)`): one more piece than
/// there are separators.
pub open spec fn pieces(t: Seq<char>, sep: char) -> Seq<Seq<char>>
    decreases t.len(),
{
    if t.len() == 0 {
        seq![Seq::<char>::empty()]
    } else {
        let parts = pieces(t.drop_last(), sep);
        if t.last() == sep {
            parts.push(Seq::<char>::empty())
        } else {
            parts.update(parts.len() - 1, parts.last().push(t.last()))
        }
    }
}

pub proof fn lemma_pieces_nonempty(t: Seq<char>, sep: char)
    ensures
        pieces(t, sep).len() >= 1,
    decreases t.len(),
{
    if t.len() > 0 {
        lemma_pieces_nonempty(t.drop_last(), sep);
    }
}

/// Appending text without separators extends the last piece.
pub proof fn lemma_pieces_extend(x: Seq<char>, b: Seq<char>, sep: char)
    requires
        forall|i: int| 0 <= i < b.len() ==> b[i] != sep,
    ensures
        pieces(x + b, sep) == pieces(x, sep).update(
            pieces(x, sep).len() - 1,
            pieces(x, sep).last() + b,
        ),
    decreases b.len(),
{
    lemma_pieces_nonempty(x, sep);
    let sx = pieces(x, sep);
    if b.len() == 0 {
        assert(x + b =~= x);
        assert(sx.last() + b =~= sx.last());
        assert(sx.update(sx.len() - 1, sx.last() + b) =~= sx);
    } else {
        let b0 = b.drop_last();
        assert forall|i: int| 0 <= i < b0.len() implies b0[i] != sep by {
            assert(b0[i] == b[i]);
        }
        assert(b.last() != sep);
        lemma_pieces_extend(x, b0, sep);
        lemma_pieces_nonempty(x + b0, sep);
        assert((x + b).drop_last() =~= x + b0);
        assert((x + b).last() == b.last());
        let parts = pieces(x + b0, sep);
        assert(parts.len() == sx.len());
        assert(parts.last() == sx.last() + b0);
        assert(pieces(x + b, sep) == parts.update(parts.len() - 1, parts.last().push(b.last())));
        assert(parts.last().push(b.last()) =~= sx.last() + b);
        assert(pieces(x + b, sep) =~= sx.update(sx.len() - 1, sx.last() + b));
    }
}

/// Three separator-free pieces joined by separators split back into themselves.
pub proof fn lemma_pieces_three(a: Seq<char>, b: Seq<char>, c: Seq<char>, sep: char)
    requires
        forall|i: int| 0 <= i < a.len() ==> a[i] != sep,
        forall|i: int| 0 <= i < b.len() ==> b[i] != sep,
        forall|i: int| 0 <= i < c.len() ==> c[i] != sep,
    ensures
        pieces(a + seq![sep] + b + seq![sep] + c, sep) == seq![a, b, c],
{
    let e = Seq::<char>::empty();
    let d = seq![sep];
    lemma_pieces_extend(e, a, sep);
    assert(e + a =~= a);
    assert(pieces(a, sep) =~= seq![a]);
    assert((a + d).drop_last() =~= a);
    assert(pieces(a + d, sep) =~= seq![a, e]);
    lemma_pieces_extend(a + d, b, sep);
    assert(pieces(a + d + b, sep) =~= seq![a, b]);
    assert((a + d + b + d).drop_last() =~= a + d + b);
    assert(pieces(a + d + b + d, sep) =~= seq![a, b, e]);
    lemma_pieces_extend(a + d + b + d, c, sep);
    assert(pieces(a + d + b + d + c, sep) =~= seq![a, b, c]);
}

/// Collects `chars[from..to]` into a string.
pub fn collect_range(chars: &Vec<char>, from: usize, to: usize) -> (s: String)
    requires
        from <= to <= chars@.len(),
    ensures
        s@ == chars@.subrange(from as int, to as int),
{
    let mut s = String::new();
    let mut i = from;
    while i < to
        invariant
            from <= i <= to <= chars@.len(),
            s@ == chars@.subrange(from as int, i as int),
        decreases to - i,
    {
        push_char(&mut s, chars[i]);
        assert(s@ =~= chars@.subrange(from as int, i + 1));
        i = i + 1;
    }
    s
}

/// The pieces of `chars[from..to]` between occurrences of `sep`.
pub fn split_range(chars: &Vec<char>, from: usize, to: usize, sep: char) -> (parts: Vec<String>)
    requires
        from <= to <= chars@.len(),
    ensures
        parts@.len() == pieces(chars@.subrange(from as int, to as int), sep).len(),
        forall|k: int|
            0 <= k < parts@.len() ==> #[trigger] parts@[k]@ == pieces(
                chars@.subrange(from as int, to as int),
                sep,
            )[k],
{
    let ghost t = chars@.subrange(from as int, to as int);
    let mut parts: Vec<String> = Vec::new();
    parts.push(String::new());
    let mut i = from;
    assert(t.take(0) =~= Seq::<char>::empty());
    while i < to
        invariant
            from <= i <= to <= chars@.len(),
            t == chars@.subrange(from as int, to as int),
            parts@.len() == pieces(t.take(i - from), sep).len(),
            parts@.len() >= 1,
            forall|k: int|
                0 <= k < parts@.len() ==> #[trigger] parts@[k]@ == pieces(t.take(i - from), sep)[k],
        decreases to - i,
    {
        let c = chars[i];
        proof {
            assert(t.take(i - from + 1).drop_last() =~= t.take(i - from));
            assert(t.take(i - from + 1).last() == c);
        }
        if c == sep {
            parts.push(String::new());
        } else {
            let mut last = parts.pop().unwrap();
            push_char(&mut last, c);
            parts.push(last);
        }
        i = i + 1;
    }
    assert(t.take(to - from) =~= t);
    parts
}

/// The texts of `parts` joined with `sep` between neighbours (`[String]::join`).
pub open spec fn join_with(parts: Seq<Seq<char>>, sep: Seq<char>) -> Seq<char>
    decreases parts.len(),
{
    if parts.len() == 0 {
        Seq::empty()
    } else if parts.len() == 1 {
        parts[0]
    } else {
        join_with(parts.drop_last(), sep) + sep + parts.last()
    }
}

/// The texts of a list of strings.
pub open spec fn texts(v: Seq<String>) -> Seq<Seq<char>> {
    v.map_values(|s: String| s@)
}

/// The strings of `parts` joined with `sep` between neighbours.
pub fn join_strings(parts: &Vec<String>, sep: &str) -> (s: String)
    ensures
        s@ == join_with(texts(parts@), sep@),
{
    let ghost v = texts(parts@);
    let mut s = String::new();
    let mut i: usize = 0;
    assert(v.take(0) =~= Seq::<Seq<char>>::empty());
    while i < parts.len()
        invariant
            i <= parts@.len(),
            v == texts(parts@),
            s@ == join_with(v.take(i as int), sep@),
        decreases parts@.len() - i,
    {
        assert(v.take(i + 1).drop_last() =~= v.take(i as int));
        if i != 0 {
            s.append(sep);
        }
        s.append(parts[i].as_str());
        proof {
            if i == 0 {
                assert(v.take(1) =~= seq![v[0]]);
                assert(s@ =~= v[0]);
            }
        }
        i = i + 1;
    }
    assert(v.take(parts@.len() as int) =~= v);
    s
}

/// A copy of a list of strings.
pub fn copy_strings(parts: &Vec<String>) -> (r: Vec<String>)
    ensures
        r@ == parts@,
{
    let mut r: Vec<String> = Vec::new();
    let mut i: usize = 0;
    while i < parts.len()
        invariant
            i <= parts@.len(),
            r@ == parts@.take(i as int),
        decreases parts@.len() - i,
    {
        r.push(parts[i].clone());
        assert(r@ =~= parts@.take(i + 1));
        i = i + 1;
    }
    assert(parts@.take(parts@.len() as int) =~= parts@);
    r
}

} // verus!
