//! Text as sequences of characters: trimming, lines, joining, prefixes and decimal numbers.
use vstd::prelude::*;

verus! {

broadcast use vstd::seq::group_seq_axioms;

/// `String::push` appends one character at the end of the string.
pub assume_specification[ String::push ](s: &mut String, c: char)
    ensures
        final(s)@ == old(s)@.push(c),
;

// ---------------------------------------------------------------------------
// Characters and strings
// ---------------------------------------------------------------------------

/// The texts held by a sequence of strings.
pub open spec fn texts(strings: Seq<String>) -> Seq<Seq<char>> {
    Seq::new(strings.len(), |i: int| strings[i]@)
}

/// The text held by an optional string.
pub open spec fn optional_text(string: Option<String>) -> Option<Seq<char>> {
    match string {
        Some(s) => Some(s@),
        None => None,
    }
}

/// The number of bytes that a text takes in UTF-8.
pub open spec fn byte_len(s: Seq<char>) -> nat {
    vstd::utf8::encode_utf8(s).len()
}

/// The characters of `s`, in order.
pub fn to_chars(s: &str) -> (chars: Vec<char>)
    ensures
        chars@ == s@,
{
    let mut chars: Vec<char> = Vec::new();
    for c in it: s.chars()
        invariant
            chars@ == s@.take(it.index() as int),
            it.seq() == s@,
    {
        chars.push(c);
        proof {
            assert(s@.take(it.index() + 1) =~= s@.take(it.index() as int).push(c));
        }
    }
    proof {
        assert(s@.take(s@.len() as int) =~= s@);
    }
    chars
}

/// The text of the characters from index `from` up to, and without, index `to`.
pub fn from_chars(chars: &Vec<char>, from: usize, to: usize) -> (s: String)
    requires
        from <= to <= chars@.len(),
    ensures
        s@ == chars@.subrange(from as int, to as int),
{
    let mut s: String = String::new();
    let mut i: usize = from;
    while i < to
        invariant
            from <= i <= to <= chars@.len(),
            s@ == chars@.subrange(from as int, i as int),
        decreases to - i,
    {
        s.push(chars[i]);
        proof {
            assert(chars@.subrange(from as int, i + 1) =~= chars@.subrange(
                from as int,
                i as int,
            ).push(chars@[i as int]));
        }
        i = i + 1;
    }
    s
}

/// Whether two texts are the same.
pub fn text_eq(a: &str, b: &str) -> (same: bool)
    ensures
        same == (a@ == b@),
{
    a.to_owned().eq(&b.to_owned())
}

/// Two texts one after the other.
pub fn concat(a: &str, b: &str) -> (r: String)
    ensures
        r@ == a@ + b@,
{
    let mut r: String = a.to_owned();
    r.append(b);
    r
}

/// The number of bytes of a text in UTF-8.
pub fn byte_count(s: &str) -> (n: usize)
    ensures
        n == byte_len(s@),
{
    s.as_bytes().len()
}

// ---------------------------------------------------------------------------
// White space
// ---------------------------------------------------------------------------

/// Whether a character has the Unicode property White_Space.
pub open spec fn white(c: char) -> bool {
    ||| '\u{9}' <= c <= '\u{d}'
    ||| c == ' '
    ||| c == '\u{85}'
    ||| c == '\u{a0}'
    ||| c == '\u{1680}'
    ||| '\u{2000}' <= c <= '\u{200a}'
    ||| c == '\u{2028}'
    ||| c == '\u{2029}'
    ||| c == '\u{202f}'
    ||| c == '\u{205f}'
    ||| c == '\u{3000}'
}

/// Whether a character is white space.
pub fn is_white(c: char) -> (yes: bool)
    ensures
        yes == white(c),
{
    ('\u{9}' <= c && c <= '\u{d}') || c == ' ' || c == '\u{85}' || c == '\u{a0}' || c == '\u{1680}'
        || ('\u{2000}' <= c && c <= '\u{200a}') || c == '\u{2028}' || c == '\u{2029}'
        || c == '\u{202f}' || c == '\u{205f}' || c == '\u{3000}'
}

/// `s` without its leading white space.
pub open spec fn trimmed_start(s: Seq<char>) -> Seq<char>
    decreases s.len(),
{
    if s.len() > 0 && white(s[0]) {
        trimmed_start(s.drop_first())
    } else {
        s
    }
}

/// `s` without its trailing white space.
pub open spec fn trimmed_end(s: Seq<char>) -> Seq<char>
    decreases s.len(),
{
    if s.len() > 0 && white(s.last()) {
        trimmed_end(s.drop_last())
    } else {
        s
    }
}

/// `s` without its leading and trailing white space.
pub open spec fn trimmed(s: Seq<char>) -> Seq<char> {
    trimmed_end(trimmed_start(s))
}

/// Whether nothing but white space is in `s`.
pub open spec fn blank(s: Seq<char>) -> bool {
    forall|i: int| 0 <= i < s.len() ==> white(#[trigger] s[i])
}

pub proof fn lemma_trimmed_start_at(s: Seq<char>, n: int)
    requires
        0 <= n <= s.len(),
        forall|i: int| 0 <= i < n ==> white(#[trigger] s[i]),
        n == s.len() || !white(s[n]),
    ensures
        trimmed_start(s) == s.skip(n),
    decreases n,
{
    if n > 0 {
        let rest = s.drop_first();
        assert forall|i: int| 0 <= i < n - 1 implies white(#[trigger] rest[i]) by {
            assert(rest[i] == s[i + 1]);
        }
        lemma_trimmed_start_at(rest, n - 1);
        assert(rest.skip(n - 1) =~= s.skip(n));
        assert(white(s[0]));
    } else {
        assert(s.skip(0) =~= s);
    }
}

pub proof fn lemma_trimmed_end_at(s: Seq<char>, n: int)
    requires
        0 <= n <= s.len(),
        forall|i: int| n <= i < s.len() ==> white(#[trigger] s[i]),
        n == 0 || !white(s[n - 1]),
    ensures
        trimmed_end(s) == s.take(n),
    decreases s.len() - n,
{
    if n < s.len() {
        let rest = s.drop_last();
        assert forall|i: int| n <= i < rest.len() implies white(#[trigger] rest[i]) by {
            assert(rest[i] == s[i]);
        }
        lemma_trimmed_end_at(rest, n);
        assert(rest.take(n) =~= s.take(n));
        assert(white(s.last()));
    } else {
        assert(s.take(n) =~= s);
    }
}

pub proof fn lemma_trimmed_same(s: Seq<char>)
    requires
        s.len() > 0,
        !white(s[0]),
        !white(s.last()),
    ensures
        trimmed(s) == s,
{
    lemma_trimmed_start_at(s, 0);
    assert(s.skip(0) =~= s);
    lemma_trimmed_end_at(s, s.len() as int);
    assert(s.take(s.len() as int) =~= s);
}

pub proof fn lemma_trimmed_push(s: Seq<char>, c: char)
    requires
        white(c),
    ensures
        trimmed(s.push(c)) == trimmed(s),
    decreases s.len(),
{
    let t = s.push(c);
    if s.len() == 0 {
        lemma_trimmed_start_at(t, 1);
        assert(t.skip(1) =~= s);
    } else if white(s[0]) {
        lemma_trimmed_push(s.drop_first(), c);
        assert(t.drop_first() =~= s.drop_first().push(c));
    } else {
        assert(t[0] == s[0]);
        assert(t.drop_last() =~= s);
    }
}

pub proof fn lemma_trimmed_add(s: Seq<char>, w: Seq<char>)
    requires
        blank(w),
    ensures
        trimmed(s + w) == trimmed(s),
    decreases w.len(),
{
    if w.len() == 0 {
        assert(s + w =~= s);
    } else {
        assert forall|i: int| 0 <= i < w.drop_last().len() implies white(
            #[trigger] w.drop_last()[i],
        ) by {
            assert(white(w[i]));
        }
        lemma_trimmed_add(s, w.drop_last());
        assert(white(w[w.len() - 1]));
        lemma_trimmed_push(s + w.drop_last(), w.last());
        assert((s + w.drop_last()).push(w.last()) =~= s + w);
    }
}

/// `s` without its leading white space.
pub fn trim_start(s: &str) -> (r: String)
    ensures
        r@ == trimmed_start(s@),
{
    let chars = to_chars(s);
    let mut start: usize = 0;
    while start < chars.len() && is_white(chars[start])
        invariant
            start <= chars@.len(),
            forall|i: int| 0 <= i < start ==> white(#[trigger] chars@[i]),
        decreases chars@.len() - start,
    {
        start = start + 1;
    }
    proof {
        lemma_trimmed_start_at(s@, start as int);
        assert(s@.skip(start as int) =~= chars@.subrange(start as int, chars@.len() as int));
    }
    from_chars(&chars, start, chars.len())
}

/// `s` without its trailing white space.
pub fn trim_end(s: &str) -> (r: String)
    ensures
        r@ == trimmed_end(s@),
{
    let chars = to_chars(s);
    let mut end: usize = chars.len();
    while end > 0 && is_white(chars[end - 1])
        invariant
            end <= chars@.len(),
            forall|i: int| end <= i < chars@.len() ==> white(#[trigger] chars@[i]),
        decreases end,
    {
        end = end - 1;
    }
    proof {
        lemma_trimmed_end_at(s@, end as int);
        assert(s@.take(end as int) =~= chars@.subrange(0, end as int));
    }
    from_chars(&chars, 0, end)
}

/// `s` without its leading and trailing white space.
pub fn trim(s: &str) -> (r: String)
    ensures
        r@ == trimmed(s@),
{
    trim_end(trim_start(s).as_str())
}

/// A text is blank exactly when trimming leaves nothing of it.
pub proof fn law_trimmed_empty_iff_blank(s: Seq<char>)
    ensures
        trimmed(s).len() == 0 <==> blank(s),
        trimmed_end(s).len() == 0 <==> blank(s),
        trimmed_start(s).len() == 0 <==> blank(s),
{
    lemma_trimmed_end_empty(s);
    lemma_trimmed_start_shape(s);
    lemma_trimmed_end_empty(trimmed_start(s));
    let n = s.len() - trimmed_start(s).len();
    let t = trimmed_start(s);
    if blank(t) && t.len() > 0 {
        assert(white(t[0]));
    }
    if t.len() == 0 {
        assert(n == s.len());
    } else if blank(s) {
        assert(t[0] == s[n]);
        assert(white(s[n]));
    }
}

/// What is left of a text after trimming its start is a suffix of it, behind white space
/// alone, and does not start with white space.
pub proof fn lemma_trimmed_start_shape(s: Seq<char>)
    ensures
        trimmed_start(s).len() <= s.len(),
        trimmed_start(s) == s.skip(s.len() - trimmed_start(s).len()),
        forall|i: int|
            0 <= i < s.len() - trimmed_start(s).len() ==> white(#[trigger] s[i]),
        trimmed_start(s).len() > 0 ==> !white(trimmed_start(s)[0]),
    decreases s.len(),
{
    if s.len() > 0 && white(s[0]) {
        let rest = s.drop_first();
        lemma_trimmed_start_shape(rest);
        let k = rest.len() - trimmed_start(rest).len();
        assert(rest.skip(k) =~= s.skip(k + 1));
        assert forall|i: int| 0 <= i < k + 1 implies white(#[trigger] s[i]) by {
            if i > 0 {
                assert(rest[i - 1] == s[i]);
            }
        }
    } else {
        assert(s.skip(0) =~= s);
    }
}

/// What is left of a text after trimming its end is a prefix of it, before white space
/// alone, and does not end with white space.
pub proof fn lemma_trimmed_end_shape(s: Seq<char>)
    ensures
        trimmed_end(s).len() <= s.len(),
        trimmed_end(s) == s.take(trimmed_end(s).len() as int),
        forall|i: int| trimmed_end(s).len() <= i < s.len() ==> white(#[trigger] s[i]),
        trimmed_end(s).len() > 0 ==> !white(trimmed_end(s).last()),
    decreases s.len(),
{
    if s.len() > 0 && white(s.last()) {
        let rest = s.drop_last();
        lemma_trimmed_end_shape(rest);
        let k = trimmed_end(rest).len() as int;
        assert(rest.take(k) =~= s.take(k));
        assert forall|i: int| k <= i < s.len() implies white(#[trigger] s[i]) by {
            if i < s.len() - 1 {
                assert(rest[i] == s[i]);
            }
        }
    } else {
        assert(s.take(s.len() as int) =~= s);
    }
}

proof fn lemma_trimmed_end_empty(s: Seq<char>)
    ensures
        trimmed_end(s).len() == 0 <==> blank(s),
{
    lemma_trimmed_end_shape(s);
    let k = trimmed_end(s).len() as int;
    if k > 0 && blank(s) {
        assert(trimmed_end(s).last() == s[k - 1]);
        assert(white(s[k - 1]));
    }
}

/// A text without white space at either end is left alone by trimming.
pub proof fn law_trimmed_is_stable(s: Seq<char>)
    ensures
        trimmed(trimmed(s)) == trimmed(s),
        trimmed_end(trimmed_end(s)) == trimmed_end(s),
        trimmed_start(trimmed_start(s)) == trimmed_start(s),
{
    lemma_trimmed_start_shape(s);
    lemma_trimmed_end_shape(s);
    let t = trimmed_start(s);
    lemma_trimmed_end_shape(t);
    let u = trimmed(s);
    if u.len() > 0 {
        assert(u[0] == t[0]);
    }
    assert(trimmed_start(u) == u);
    assert(trimmed_end(u) == u);
}

// ---------------------------------------------------------------------------
// Order
// ---------------------------------------------------------------------------

/// Whether `a` is `b` or comes before it, character by character.
pub open spec fn text_le(a: Seq<char>, b: Seq<char>) -> bool
    decreases a.len(),
{
    if a.len() == 0 {
        true
    } else if b.len() == 0 {
        false
    } else if a[0] == b[0] {
        text_le(a.drop_first(), b.drop_first())
    } else {
        a[0] < b[0]
    }
}

pub proof fn lemma_text_le_transitive(a: Seq<char>, b: Seq<char>, c: Seq<char>)
    requires
        text_le(a, b),
        text_le(b, c),
    ensures
        text_le(a, c),
    decreases a.len(),
{
    if a.len() > 0 && b.len() > 0 && c.len() > 0 && a[0] == b[0] && b[0] == c[0] {
        lemma_text_le_transitive(a.drop_first(), b.drop_first(), c.drop_first());
    }
}

pub proof fn lemma_text_le_total(a: Seq<char>, b: Seq<char>)
    ensures
        text_le(a, b) || text_le(b, a),
        text_le(a, b) && text_le(b, a) ==> a == b,
    decreases a.len(),
{
    if a.len() > 0 && b.len() > 0 && a[0] == b[0] {
        lemma_text_le_total(a.drop_first(), b.drop_first());
        if a.drop_first() == b.drop_first() {
            assert(a =~= seq![a[0]] + a.drop_first());
            assert(b =~= seq![b[0]] + b.drop_first());
        }
    } else if a.len() == 0 && b.len() == 0 {
        assert(a =~= b);
    }
}

/// Whether `a` is `b` or comes before it, character by character.
pub fn is_text_le(a: &str, b: &str) -> (yes: bool)
    ensures
        yes == text_le(a@, b@),
{
    let left = to_chars(a);
    let right = to_chars(b);
    let mut i: usize = 0;
    proof {
        assert(left@.skip(0) =~= a@);
        assert(right@.skip(0) =~= b@);
    }
    while i < left.len() && i < right.len()
        invariant
            i <= left@.len(),
            i <= right@.len(),
            text_le(a@, b@) == text_le(left@.skip(i as int), right@.skip(i as int)),
        decreases left@.len() - i,
    {
        if left[i] != right[i] {
            return left[i] < right[i];
        }
        proof {
            assert(left@.skip(i as int).drop_first() =~= left@.skip(i + 1));
            assert(right@.skip(i as int).drop_first() =~= right@.skip(i + 1));
        }
        i = i + 1;
    }
    i == left.len()
}

// ---------------------------------------------------------------------------
// Prefixes and suffixes
// ---------------------------------------------------------------------------

/// Whether `s` starts with `prefix`.
pub fn starts_with(s: &str, prefix: &str) -> (yes: bool)
    ensures
        yes == prefix@.is_prefix_of(s@),
{
    let chars = to_chars(s);
    let wanted = to_chars(prefix);
    if wanted.len() > chars.len() {
        return false;
    }
    let mut i: usize = 0;
    while i < wanted.len()
        invariant
            i <= wanted@.len() <= chars@.len(),
            chars@ == s@,
            wanted@ == prefix@,
            forall|k: int| 0 <= k < i ==> wanted@[k] == chars@[k],
        decreases wanted@.len() - i,
    {
        if wanted[i] != chars[i] {
            proof {
                assert(s@.subrange(0, prefix@.len() as int)[i as int] != prefix@[i as int]);
            }
            return false;
        }
        i = i + 1;
    }
    proof {
        assert(prefix@ =~= s@.subrange(0, prefix@.len() as int));
    }
    true
}

/// Whether the last character of `s` is `c`.
pub fn ends_with_char(s: &str, c: char) -> (yes: bool)
    ensures
        yes == (s@.len() > 0 && s@.last() == c),
{
    let chars = to_chars(s);
    chars.len() > 0 && chars[chars.len() - 1] == c
}

/// `s` without `prefix` in front, if it is there.
pub fn strip_prefix(s: &str, prefix: &str) -> (rest: Option<String>)
    ensures
        rest is Some <==> prefix@.is_prefix_of(s@),
        rest is Some ==> rest->0@ == s@.skip(prefix@.len() as int),
{
    if starts_with(s, prefix) {
        let chars = to_chars(s);
        let n: usize = to_chars(prefix).len();
        proof {
            assert(s@.skip(n as int) =~= chars@.subrange(n as int, chars@.len() as int));
        }
        Some(from_chars(&chars, n, chars.len()))
    } else {
        None
    }
}

/// `s` without `suffix` behind, if it is there.
pub fn strip_suffix(s: &str, suffix: &str) -> (rest: Option<String>)
    ensures
        rest is Some <==> suffix@.is_suffix_of(s@),
        rest is Some ==> rest->0@ == s@.take(s@.len() - suffix@.len()),
{
    let chars = to_chars(s);
    let wanted = to_chars(suffix);
    if wanted.len() > chars.len() {
        return None;
    }
    let total: usize = chars.len();
    let base: usize = total - wanted.len();
    let mut i: usize = 0;
    while i < wanted.len()
        invariant
            i <= wanted@.len() <= chars@.len(),
            total == chars@.len(),
            base == total - wanted@.len(),
            chars@ == s@,
            wanted@ == suffix@,
            forall|k: int| 0 <= k < i ==> #[trigger] wanted@[k] == chars@[base + k],
        decreases wanted@.len() - i,
    {
        if wanted[i] != chars[base + i] {
            proof {
                assert(s@.subrange(s@.len() - suffix@.len(), s@.len() as int)[i as int]
                    != suffix@[i as int]);
            }
            return None;
        }
        i = i + 1;
    }
    proof {
        assert(suffix@ =~= s@.subrange(s@.len() - suffix@.len(), s@.len() as int));
        assert(s@.take(base as int) =~= chars@.subrange(0, base as int));
    }
    Some(from_chars(&chars, 0, base))
}

// ---------------------------------------------------------------------------
// Lines
// ---------------------------------------------------------------------------

/// The index of the first line feed of `s`, or its length where it has none.
pub open spec fn line_end(s: Seq<char>) -> nat
    decreases s.len(),
{
    if s.len() == 0 || s[0] == '\n' {
        0
    } else {
        1 + line_end(s.drop_first())
    }
}

/// `s` without a carriage return at its end.
pub open spec fn without_return(s: Seq<char>) -> Seq<char> {
    if s.len() > 0 && s.last() == '\r' {
        s.drop_last()
    } else {
        s
    }
}

/// The lines of `s`: a line ends at a line feed, which may have a carriage return before it;
/// neither belongs to the line. A line feed at the very end starts no further line.
pub open spec fn lines_of(s: Seq<char>) -> Seq<Seq<char>>
    decreases s.len(),
{
    let n = line_end(s) as int;
    if s.len() == 0 {
        Seq::empty()
    } else if n >= s.len() {
        seq![s]
    } else {
        seq![without_return(s.take(n))] + lines_of(s.skip(n + 1))
    }
}

pub proof fn lemma_line_end_at(s: Seq<char>, n: int)
    requires
        0 <= n <= s.len(),
        forall|i: int| 0 <= i < n ==> #[trigger] s[i] != '\n',
        n == s.len() || s[n] == '\n',
    ensures
        line_end(s) == n,
    decreases n,
{
    if n > 0 {
        let rest = s.drop_first();
        assert forall|i: int| 0 <= i < n - 1 implies #[trigger] rest[i] != '\n' by {
            assert(rest[i] == s[i + 1]);
        }
        lemma_line_end_at(rest, n - 1);
        assert(s[0] != '\n');
    }
}

/// The lines of `s`.
pub fn lines(s: &str) -> (r: Vec<String>)
    ensures
        texts(r@) == lines_of(s@),
{
    let chars = to_chars(s);
    let mut r: Vec<String> = Vec::new();
    let mut start: usize = 0;
    proof {
        assert(chars@.skip(0) =~= s@);
        assert(texts(r@) + lines_of(s@) =~= lines_of(s@));
    }
    while start < chars.len()
        invariant
            start <= chars@.len(),
            chars@ == s@,
            lines_of(s@) == texts(r@) + lines_of(chars@.skip(start as int)),
        decreases chars@.len() - start,
    {
        let ghost rest = chars@.skip(start as int);
        let ghost before = texts(r@);
        let mut end: usize = start;
        while end < chars.len() && chars[end] != '\n'
            invariant
                start <= end <= chars@.len(),
                forall|i: int| start <= i < end ==> #[trigger] chars@[i] != '\n',
            decreases chars@.len() - end,
        {
            end = end + 1;
        }
        proof {
            assert forall|i: int| 0 <= i < end - start implies #[trigger] rest[i] != '\n' by {
                assert(rest[i] == chars@[start + i]);
            }
            lemma_line_end_at(rest, end - start);
        }
        if end == chars.len() {
            let line = from_chars(&chars, start, end);
            proof {
                assert(line@ =~= rest);
                assert(lines_of(rest) =~= seq![rest]);
                assert(chars@.skip(end as int).len() == 0);
                assert(texts(r@.push(line)) =~= before.push(line@));
                assert(before + seq![rest] =~= before.push(rest));
                assert(before.push(rest) + lines_of(chars@.skip(end as int)) =~= before.push(rest));
            }
            r.push(line);
            start = end;
        } else {
            let mut stop: usize = end;
            if end > start && chars[end - 1] == '\r' {
                stop = end - 1;
            }
            let line = from_chars(&chars, start, stop);
            proof {
                let whole = rest.take(end - start);
                assert(line@ =~= without_return(whole));
                assert(rest.skip(end - start + 1) =~= chars@.skip(end + 1));
                let tail = lines_of(chars@.skip(end + 1));
                assert(lines_of(rest) == seq![line@] + tail);
                assert(texts(r@.push(line)) =~= before.push(line@));
                assert(before + (seq![line@] + tail) =~= before.push(line@) + tail);
            }
            r.push(line);
            start = end + 1;
        }
    }
    proof {
        assert(chars@.skip(start as int).len() == 0);
        assert(texts(r@) + Seq::<Seq<char>>::empty() =~= texts(r@));
    }
    r
}

/// The number of line feeds in `s`.
pub open spec fn line_feeds(s: Seq<char>) -> nat
    decreases s.len(),
{
    if s.len() == 0 {
        0
    } else {
        line_feeds(s.drop_last()) + if s.last() == '\n' {
            1nat
        } else {
            0nat
        }
    }
}

pub proof fn lemma_line_feeds_add(a: Seq<char>, b: Seq<char>)
    ensures
        line_feeds(a + b) == line_feeds(a) + line_feeds(b),
    decreases b.len(),
{
    if b.len() == 0 {
        assert(a + b =~= a);
    } else {
        lemma_line_feeds_add(a, b.drop_last());
        assert((a + b).drop_last() =~= a + b.drop_last());
    }
}

pub proof fn lemma_one_line_feed()
    ensures
        line_feeds(seq!['\n']) == 1,
{
    reveal_with_fuel(line_feeds, 2);
}

pub proof fn lemma_no_line_feeds(s: Seq<char>)
    requires
        forall|i: int| 0 <= i < s.len() ==> #[trigger] s[i] != '\n',
    ensures
        line_feeds(s) == 0,
    decreases s.len(),
{
    if s.len() > 0 {
        lemma_no_line_feeds(s.drop_last());
    }
}

pub proof fn lemma_line_end_shape(s: Seq<char>)
    ensures
        line_end(s) <= s.len(),
        forall|i: int| 0 <= i < line_end(s) ==> #[trigger] s[i] != '\n',
        line_end(s) < s.len() ==> s[line_end(s) as int] == '\n',
    decreases s.len(),
{
    if s.len() > 0 && s[0] != '\n' {
        let rest = s.drop_first();
        lemma_line_end_shape(rest);
        assert forall|i: int| 0 <= i < line_end(s) implies #[trigger] s[i] != '\n' by {
            if i > 0 {
                assert(rest[i - 1] == s[i]);
            }
        }
    }
}

/// A text has at most one line more than it has line feeds.
pub proof fn law_line_count(s: Seq<char>)
    ensures
        lines_of(s).len() <= line_feeds(s) + 1,
    decreases s.len(),
{
    if s.len() > 0 {
        lemma_line_end_shape(s);
        let n = line_end(s) as int;
        if n < s.len() {
            law_line_count(s.skip(n + 1));
            assert(s =~= s.take(n) + (seq!['\n'] + s.skip(n + 1)));
            lemma_line_feeds_add(s.take(n), seq!['\n'] + s.skip(n + 1));
            lemma_line_feeds_add(seq!['\n'], s.skip(n + 1));
            lemma_one_line_feed();
        }
    }
}

/// No line of a text holds a line feed.
pub proof fn law_lines_hold_no_line_feed(s: Seq<char>)
    ensures
        forall|i: int, j: int|
            0 <= i < lines_of(s).len() && 0 <= j < lines_of(s)[i].len()
                ==> #[trigger] lines_of(s)[i][j] != '\n',
    decreases s.len(),
{
    if s.len() > 0 {
        lemma_line_end_shape(s);
        let n = line_end(s) as int;
        if n < s.len() {
            let rest = s.skip(n + 1);
            law_lines_hold_no_line_feed(rest);
            assert forall|i: int, j: int|
                0 <= i < lines_of(s).len() && 0 <= j < lines_of(s)[i].len() implies
                #[trigger] lines_of(s)[i][j] != '\n' by {
                if i == 0 {
                    assert(lines_of(s)[0][j] == s[j]);
                } else {
                    assert(lines_of(s)[i] == lines_of(rest)[i - 1]);
                }
            }
        }
    }
}

/// Lines that end with a line feed and those of another text below them are read as they would
/// be apart.
pub proof fn law_lines_below(s: Seq<char>, t: Seq<char>)
    requires
        s.len() > 0,
        s.last() == '\n',
    ensures
        lines_of(s + t) == lines_of(s) + lines_of(t),
    decreases s.len(),
{
    lemma_line_end_shape(s);
    let n = line_end(s) as int;
    if n == s.len() {
        assert(s[n - 1] != '\n');
    }
    let all = s + t;
    assert forall|i: int| 0 <= i < n implies #[trigger] all[i] != '\n' by {
        assert(all[i] == s[i]);
    }
    lemma_line_end_at(all, n);
    let rest = s.skip(n + 1);
    let line = without_return(s.take(n));
    assert(all.take(n) =~= s.take(n));
    assert(all.skip(n + 1) =~= rest + t);
    if rest.len() == 0 {
        assert(rest + t =~= t);
        assert(lines_of(rest) =~= Seq::empty());
        assert(seq![line] + lines_of(rest) + lines_of(t) =~= seq![line] + lines_of(t));
    } else {
        assert(rest.last() == s.last());
        law_lines_below(rest, t);
    }
    assert(lines_of(s) == seq![line] + lines_of(rest));
    assert(seq![line] + (lines_of(rest) + lines_of(t)) =~= seq![line] + lines_of(rest) + lines_of(
        t,
    ));
}

// ---------------------------------------------------------------------------
// Splitting
// ---------------------------------------------------------------------------

/// The pieces of `s` between occurrences of `mark`; a text without one is one piece.
pub open spec fn pieces_of(s: Seq<char>, mark: char) -> Seq<Seq<char>>
    decreases s.len(),
{
    if s.len() == 0 {
        seq![Seq::empty()]
    } else {
        let before = pieces_of(s.drop_last(), mark);
        if s.last() == mark {
            before.push(Seq::empty())
        } else {
            before.drop_last().push(before.last().push(s.last()))
        }
    }
}

pub proof fn lemma_pieces_nonempty(s: Seq<char>, mark: char)
    ensures
        pieces_of(s, mark).len() > 0,
    decreases s.len(),
{
    if s.len() > 0 {
        lemma_pieces_nonempty(s.drop_last(), mark);
    }
}

pub proof fn lemma_pieces_add(a: Seq<char>, b: Seq<char>, mark: char)
    ensures
        pieces_of(a + b, mark) == pieces_of(a, mark).drop_last() + seq![
            pieces_of(a, mark).last() + pieces_of(b, mark)[0],
        ] + pieces_of(b, mark).drop_first(),
    decreases b.len(),
{
    let p = pieces_of(a, mark);
    lemma_pieces_nonempty(a, mark);
    lemma_pieces_nonempty(b, mark);
    if b.len() == 0 {
        assert(a + b =~= a);
        assert(p.last() + Seq::<char>::empty() =~= p.last());
        assert(p =~= p.drop_last() + seq![p.last()] + Seq::empty());
        assert(pieces_of(b, mark).drop_first() =~= Seq::empty());
    } else {
        let c = b.drop_last();
        let q = pieces_of(c, mark);
        lemma_pieces_nonempty(c, mark);
        lemma_pieces_add(a, c, mark);
        assert((a + b).drop_last() =~= a + c);
        let before = pieces_of(a + c, mark);
        if b.last() == mark {
            assert(before.push(Seq::empty()) =~= p.drop_last() + seq![p.last() + q[0]]
                + q.push(Seq::empty()).drop_first());
        } else {
            let longer = q.drop_last().push(q.last().push(b.last()));
            assert(pieces_of(b, mark) == longer);
            if q.len() == 1 {
                assert((p.last() + q[0]).push(b.last()) =~= p.last() + longer[0]);
                assert(before.last() == p.last() + q[0]);
            } else {
                assert(before.last() == q.last());
            }
            assert(before.drop_last().push(before.last().push(b.last())) =~= p.drop_last() + seq![
                p.last() + longer[0],
            ] + longer.drop_first());
        }
    }
}

pub proof fn lemma_pieces_plain(s: Seq<char>, mark: char)
    requires
        forall|i: int| 0 <= i < s.len() ==> #[trigger] s[i] != mark,
    ensures
        pieces_of(s, mark) == seq![s],
    decreases s.len(),
{
    if s.len() == 0 {
        assert(s =~= Seq::empty());
    } else {
        let before = s.drop_last();
        assert forall|i: int| 0 <= i < before.len() implies #[trigger] before[i] != mark by {
            assert(s[i] != mark);
        }
        lemma_pieces_plain(before, mark);
        assert(seq![before].drop_last().push(before.push(s.last())) =~= seq![s]) by {
            assert(before.push(s.last()) =~= s);
        }
    }
}

pub proof fn lemma_pieces_hold_no_mark(s: Seq<char>, mark: char)
    ensures
        forall|i: int, j: int|
            0 <= i < pieces_of(s, mark).len() && 0 <= j < pieces_of(s, mark)[i].len()
                ==> #[trigger] pieces_of(s, mark)[i][j] != mark,
    decreases s.len(),
{
    if s.len() > 0 {
        let before = pieces_of(s.drop_last(), mark);
        let pieces = pieces_of(s, mark);
        lemma_pieces_hold_no_mark(s.drop_last(), mark);
        lemma_pieces_nonempty(s.drop_last(), mark);
        assert forall|i: int, j: int|
            0 <= i < pieces.len() && 0 <= j < pieces[i].len() implies #[trigger] pieces[i][j]
            != mark by {
            if i < before.len() - 1 {
                assert(pieces[i] == before[i]);
            } else if s.last() == mark && i == before.len() - 1 {
                assert(pieces[i] == before[i]);
            } else if s.last() != mark && j < before.last().len() {
                assert(pieces[i][j] == before.last()[j]);
            }
        }
    }
}

pub proof fn lemma_pieces_hold_what_was_there(s: Seq<char>, mark: char, c: char)
    requires
        forall|i: int| 0 <= i < s.len() ==> #[trigger] s[i] != c,
    ensures
        forall|i: int, j: int|
            0 <= i < pieces_of(s, mark).len() && 0 <= j < pieces_of(s, mark)[i].len()
                ==> #[trigger] pieces_of(s, mark)[i][j] != c,
    decreases s.len(),
{
    if s.len() > 0 {
        let before = pieces_of(s.drop_last(), mark);
        let pieces = pieces_of(s, mark);
        assert forall|i: int| 0 <= i < s.drop_last().len() implies #[trigger] s.drop_last()[i]
            != c by {
            assert(s[i] != c);
        }
        lemma_pieces_hold_what_was_there(s.drop_last(), mark, c);
        lemma_pieces_nonempty(s.drop_last(), mark);
        assert(s[s.len() - 1] != c);
        assert forall|i: int, j: int|
            0 <= i < pieces.len() && 0 <= j < pieces[i].len() implies #[trigger] pieces[i][j]
            != c by {
            if i < before.len() - 1 {
                assert(pieces[i] == before[i]);
            } else if s.last() == mark && i == before.len() - 1 {
                assert(pieces[i] == before[i]);
            } else if s.last() != mark && j < before.last().len() {
                assert(pieces[i][j] == before.last()[j]);
            }
        }
    }
}

/// Splits a text at every occurrence of `mark`.
pub fn split(s: &str, mark: char) -> (r: Vec<String>)
    ensures
        texts(r@) == pieces_of(s@, mark),
{
    let chars = to_chars(s);
    let mut done: Vec<String> = Vec::new();
    let mut piece: String = String::new();
    let mut i: usize = 0;
    proof {
        assert(texts(done@).push(piece@) =~= seq![Seq::<char>::empty()]);
    }
    while i < chars.len()
        invariant
            i <= chars@.len(),
            texts(done@).push(piece@) == pieces_of(chars@.take(i as int), mark),
        decreases chars@.len() - i,
    {
        let c = chars[i];
        let ghost before = texts(done@).push(piece@);
        proof {
            assert(chars@.take(i + 1).drop_last() =~= chars@.take(i as int));
            assert(before.drop_last() =~= texts(done@));
        }
        if c == mark {
            let finished = piece;
            piece = String::new();
            done.push(finished);
            proof {
                assert(texts(done@) =~= before);
            }
        } else {
            piece.push(c);
        }
        i = i + 1;
    }
    let ghost before = texts(done@).push(piece@);
    done.push(piece);
    proof {
        assert(texts(done@) =~= before);
        assert(chars@.take(i as int) =~= s@);
    }
    done
}

// ---------------------------------------------------------------------------
// Joining
// ---------------------------------------------------------------------------

/// The texts one after another, with `separator` between each two.
pub open spec fn joined(parts: Seq<Seq<char>>, separator: Seq<char>) -> Seq<char>
    decreases parts.len(),
{
    if parts.len() == 0 {
        Seq::empty()
    } else if parts.len() == 1 {
        parts[0]
    } else {
        joined(parts.drop_last(), separator) + separator + parts.last()
    }
}

/// The texts one after another, each with a line feed behind it.
pub open spec fn terminated(parts: Seq<Seq<char>>) -> Seq<char>
    decreases parts.len(),
{
    if parts.len() == 0 {
        Seq::empty()
    } else {
        terminated(parts.drop_last()) + parts.last().push('\n')
    }
}

pub proof fn lemma_joined_front(first: Seq<char>, rest: Seq<Seq<char>>, separator: Seq<char>)
    ensures
        joined(seq![first] + rest, separator) == if rest.len() == 0 {
            first
        } else {
            first + separator + joined(rest, separator)
        },
    decreases rest.len(),
{
    let all = seq![first] + rest;
    if rest.len() == 1 {
        assert(all.drop_last() =~= seq![first]);
        assert(joined(seq![first], separator) == first);
    } else if rest.len() > 1 {
        lemma_joined_front(first, rest.drop_last(), separator);
        assert(all.drop_last() =~= seq![first] + rest.drop_last());
        let mid = joined(rest.drop_last(), separator);
        assert(first + separator + mid + separator + rest.last() =~= first + separator + (mid
            + separator + rest.last()));
    }
}

pub proof fn lemma_joined_add(a: Seq<Seq<char>>, b: Seq<Seq<char>>, separator: Seq<char>)
    requires
        a.len() > 0,
        b.len() > 0,
    ensures
        joined(a + b, separator) == joined(a, separator) + separator + joined(b, separator),
    decreases b.len(),
{
    let all = a + b;
    assert(all.last() == b.last());
    if b.len() == 1 {
        assert(all.drop_last() =~= a);
        reveal_with_fuel(joined, 2);
    } else {
        lemma_joined_add(a, b.drop_last(), separator);
        assert(all.drop_last() =~= a + b.drop_last());
        let front = joined(a, separator);
        let mid = joined(b.drop_last(), separator);
        assert(front + separator + mid + separator + b.last() =~= front + separator + (mid
            + separator + b.last()));
    }
}

/// Whether a text may stand as a line: it holds no line feed and does not end with the return
/// that would be taken for a part of the line's end.
pub open spec fn plain_line(s: Seq<char>) -> bool {
    &&& forall|i: int| 0 <= i < s.len() ==> #[trigger] s[i] != '\n'
    &&& s.len() > 0 ==> s.last() != '\r'
}

/// Lines that are put together are read back as they were, if the last is not empty.
pub proof fn law_lines_of_joined(lines: Seq<Seq<char>>)
    requires
        lines.len() > 0,
        forall|i: int| 0 <= i < lines.len() ==> plain_line(#[trigger] lines[i]),
        lines.last().len() > 0,
    ensures
        lines_of(joined(lines, "\n"@)) == lines,
    decreases lines.len(),
{
    reveal_strlit("\n");
    let first = lines[0];
    let whole = joined(lines, "\n"@);
    let n = first.len() as int;
    assert(plain_line(first));
    if lines.len() == 1 {
        lemma_line_end_at(whole, n);
        assert(lines_of(whole) =~= lines);
    } else {
        let rest = lines.skip(1);
        let after = joined(rest, "\n"@);
        assert(lines =~= seq![first] + rest);
        lemma_joined_front(first, rest, "\n"@);
        assert forall|i: int| 0 <= i < rest.len() implies plain_line(#[trigger] rest[i]) by {
            assert(rest[i] == lines[i + 1]);
        }
        law_lines_of_joined(rest);
        assert(whole == first + "\n"@ + after);
        assert forall|i: int| 0 <= i < n implies #[trigger] whole[i] != '\n' by {
            assert(whole[i] == first[i]);
        }
        assert(whole[n] == '\n');
        lemma_line_end_at(whole, n);
        assert(whole.take(n) =~= first);
        assert(whole.skip(n + 1) =~= after);
        assert(lines_of(whole) =~= seq![first] + rest);
    }
}

proof fn lemma_joined_push(parts: Seq<Seq<char>>, separator: Seq<char>, c: char)
    requires
        parts.len() > 0,
    ensures
        joined(parts.drop_last().push(parts.last().push(c)), separator) == joined(
            parts,
            separator,
        ).push(c),
{
    let longer = parts.drop_last().push(parts.last().push(c));
    assert(longer.drop_last() =~= parts.drop_last());
    if parts.len() > 1 {
        let front = joined(parts.drop_last(), separator);
        assert(front + separator + parts.last().push(c) =~= (front + separator
            + parts.last()).push(c));
    }
}

/// The pieces between marks, put together with the mark, give the text back.
pub proof fn law_joined_pieces(s: Seq<char>, mark: char)
    ensures
        joined(pieces_of(s, mark), seq![mark]) == s,
    decreases s.len(),
{
    if s.len() == 0 {
        reveal_with_fuel(pieces_of, 2);
        assert(joined(pieces_of(s, mark), seq![mark]) =~= s);
    } else {
        let before = pieces_of(s.drop_last(), mark);
        law_joined_pieces(s.drop_last(), mark);
        lemma_pieces_nonempty(s.drop_last(), mark);
        if s.last() == mark {
            let all = before.push(Seq::empty());
            assert(all.drop_last() =~= before);
            assert(joined(all, seq![mark]) =~= s.drop_last() + seq![mark]);
        } else {
            lemma_joined_push(before, seq![mark], s.last());
        }
        assert(s.drop_last().push(s.last()) =~= s);
    }
}

/// Pieces without the mark, put together with it, are read back as they were.
pub proof fn law_pieces_of_joined(parts: Seq<Seq<char>>, mark: char)
    requires
        parts.len() > 0,
        forall|i: int, j: int|
            0 <= i < parts.len() && 0 <= j < parts[i].len() ==> #[trigger] parts[i][j] != mark,
    ensures
        pieces_of(joined(parts, seq![mark]), mark) == parts,
    decreases parts.len(),
{
    let last = parts.last();
    assert forall|j: int| 0 <= j < last.len() implies #[trigger] last[j] != mark by {
        assert(parts[parts.len() - 1][j] != mark);
    }
    lemma_pieces_plain(last, mark);
    if parts.len() == 1 {
        assert(seq![last] =~= parts);
    } else {
        let front = parts.drop_last();
        let start = joined(front, seq![mark]);
        assert forall|i: int, j: int|
            0 <= i < front.len() && 0 <= j < front[i].len() implies #[trigger] front[i][j]
            != mark by {
            assert(parts[i][j] != mark);
        }
        law_pieces_of_joined(front, mark);
        let lead = start + seq![mark];
        assert(lead.drop_last() =~= start);
        assert(pieces_of(lead, mark) == front.push(Seq::empty()));
        lemma_pieces_add(lead, last, mark);
        assert(Seq::<char>::empty() + last =~= last);
        assert(front.push(Seq::empty()).drop_last() + seq![last] + seq![last].drop_first()
            =~= parts);
    }
}

/// Whether no return stands before a line feed, or at the end.
pub open spec fn returns_stay(s: Seq<char>) -> bool {
    forall|i: int|
        0 <= i < s.len() && #[trigger] s[i] == '\r' ==> i + 1 < s.len() && s[i + 1] != '\n'
}

proof fn lemma_pieces_between_line_feeds(s: Seq<char>)
    requires
        forall|i: int| 0 <= i < s.len() - 1 && #[trigger] s[i] == '\r' ==> s[i + 1] != '\n',
    ensures
        ({
            let pieces = pieces_of(s, '\n');
            &&& pieces.len() > 0
            &&& forall|i: int| 0 <= i < pieces.len() - 1 ==> plain_line(#[trigger] pieces[i])
            &&& forall|i: int| 0 <= i < pieces.last().len() ==> #[trigger] pieces.last()[i] != '\n'
            &&& pieces.last().len() > 0 ==> s.len() > 0 && pieces.last().last() == s.last()
        }),
    decreases s.len(),
{
    if s.len() > 0 {
        let before = pieces_of(s.drop_last(), '\n');
        let pieces = pieces_of(s, '\n');
        assert forall|i: int| 0 <= i < s.drop_last().len() - 1 && #[trigger] s.drop_last()[i]
            == '\r' implies s.drop_last()[i + 1] != '\n' by {
            assert(s[i] == '\r');
        }
        lemma_pieces_between_line_feeds(s.drop_last());
        assert forall|i: int| 0 <= i < pieces.len() - 1 implies plain_line(#[trigger] pieces[i]) by {
            if i < before.len() - 1 {
                assert(pieces[i] == before[i]);
            } else {
                assert(pieces[i] == before.last());
                if before.last().len() > 0 && before.last().last() == '\r' {
                    assert(s[s.len() - 2] == '\r');
                }
            }
        }
    }
}

pub proof fn lemma_pieces_are_plain_lines(s: Seq<char>)
    requires
        returns_stay(s),
    ensures
        pieces_of(s, '\n').len() > 0,
        forall|i: int|
            0 <= i < pieces_of(s, '\n').len() ==> plain_line(#[trigger] pieces_of(s, '\n')[i]),
{
    lemma_pieces_between_line_feeds(s);
    let last = pieces_of(s, '\n').last();
    if last.len() > 0 && last.last() == '\r' {
        assert(s[s.len() - 1] == '\r');
    }
    assert(plain_line(last));
}

/// Joins strings with a separator.
pub fn join(parts: &Vec<String>, separator: &str) -> (r: String)
    ensures
        r@ == joined(texts(parts@), separator@),
{
    let mut r: String = String::new();
    let mut i: usize = 0;
    while i < parts.len()
        invariant
            i <= parts@.len(),
            r@ == joined(texts(parts@).take(i as int), separator@),
        decreases parts@.len() - i,
    {
        proof {
            let next = texts(parts@).take(i + 1);
            assert(next.drop_last() =~= texts(parts@).take(i as int));
            assert(next.last() == parts@[i as int]@);
        }
        if i > 0 {
            r.append(separator);
        }
        r.append(parts[i].as_str());
        proof {
            if i == 0 {
                assert(r@ =~= parts@[0]@);
            }
        }
        i = i + 1;
    }
    proof {
        assert(texts(parts@).take(i as int) =~= texts(parts@));
    }
    r
}

// ---------------------------------------------------------------------------
// Decimal numbers
// ---------------------------------------------------------------------------

/// The character of a digit.
pub open spec fn digit(d: nat) -> char {
    (48 + d) as char
}

/// The decimal digits of a number, without leading zeros.
pub open spec fn decimal(n: nat) -> Seq<char>
    decreases n,
{
    if n < 10 {
        seq![digit(n)]
    } else {
        decimal(n / 10).push(digit(n % 10))
    }
}

/// `digits` with zeros in front, up to the given width.
pub open spec fn zero_padded(digits: Seq<char>, width: nat) -> Seq<char>
    decreases width - digits.len(),
{
    if digits.len() < width {
        zero_padded(seq!['0'] + digits, width)
    } else {
        digits
    }
}

pub proof fn lemma_zero_padded_len(digits: Seq<char>, width: nat)
    ensures
        zero_padded(digits, width).len() == if digits.len() < width {
            width
        } else {
            digits.len()
        },
    decreases width - digits.len(),
{
    if digits.len() < width {
        lemma_zero_padded_len(seq!['0'] + digits, width);
    }
}

pub proof fn lemma_decimal_is_digits(n: nat)
    ensures
        decimal(n).len() > 0,
        forall|i: int| 0 <= i < decimal(n).len() ==> '0' <= #[trigger] decimal(n)[i] <= '9',
    decreases n,
{
    if n >= 10 {
        lemma_decimal_is_digits(n / 10);
    }
}

pub proof fn lemma_zero_padded_is_digits(digits: Seq<char>, width: nat)
    requires
        forall|i: int| 0 <= i < digits.len() ==> '0' <= #[trigger] digits[i] <= '9',
    ensures
        forall|i: int|
            0 <= i < zero_padded(digits, width).len() ==> '0' <= #[trigger] zero_padded(
                digits,
                width,
            )[i] <= '9',
    decreases width - digits.len(),
{
    if digits.len() < width {
        let longer = seq!['0'] + digits;
        lemma_zero_padded_is_digits(longer, width);
        assert(zero_padded(digits, width) == zero_padded(longer, width));
    }
}

/// The decimal digits of `n`.
pub fn decimal_string(n: u128) -> (r: String)
    ensures
        r@ == decimal(n as nat),
    decreases n,
{
    let low: u8 = (n % 10) as u8;
    let c: char = (48u8 + low) as char;
    if n < 10 {
        let mut r: String = String::new();
        r.push(c);
        proof {
            assert(r@ =~= seq![digit(n as nat)]);
        }
        r
    } else {
        let mut r = decimal_string(n / 10);
        r.push(c);
        r
    }
}

/// The decimal digits of `n`, filled up with leading zeros to the given width.
pub fn padded_decimal_string(n: u128, width: usize) -> (r: String)
    ensures
        r@ == zero_padded(decimal(n as nat), width as nat),
{
    let mut r = decimal_string(n);
    let mut len: usize = to_chars(r.as_str()).len();
    while len < width
        invariant
            len == r@.len(),
            zero_padded(r@, width as nat) == zero_padded(decimal(n as nat), width as nat),
        decreases width - len,
    {
        let mut longer: String = String::new();
        longer.push('0');
        longer.append(r.as_str());
        proof {
            assert(longer@ =~= seq!['0'] + r@);
        }
        r = longer;
        len = len + 1;
    }
    r
}

// ---------------------------------------------------------------------------
// Laws
// ---------------------------------------------------------------------------

/// Trimming takes white space off both ends and nothing else: what is left is a stretch of the
/// text, with white space alone before and behind it, and none at its own ends.
pub proof fn law_trimmed_is_a_stretch(s: Seq<char>) -> (ends: (int, int))
    ensures
        0 <= ends.0 <= ends.1 <= s.len(),
        trimmed(s) == s.subrange(ends.0, ends.1),
        forall|i: int| 0 <= i < ends.0 ==> white(#[trigger] s[i]),
        forall|i: int| ends.1 <= i < s.len() ==> white(#[trigger] s[i]),
        ends.0 < ends.1 ==> !white(s[ends.0]) && !white(s[ends.1 - 1]),
{
    lemma_trimmed_start_shape(s);
    let t = trimmed_start(s);
    let n = s.len() - t.len();
    lemma_trimmed_end_shape(t);
    let u = trimmed(s);
    let m = n + u.len();
    assert(u =~= s.subrange(n, m));
    assert forall|i: int| m <= i < s.len() implies white(#[trigger] s[i]) by {
        assert(s[i] == t[i - n]);
    }
    if n < m {
        assert(s[n] == t[0]);
        assert(s[m - 1] == u.last());
    }
    (n, m)
}

/// White space around a text does not matter to trimming.
pub proof fn law_white_space_around_is_trimmed(before: Seq<char>, s: Seq<char>, behind: Seq<char>)
    requires
        blank(before),
        blank(behind),
    ensures
        trimmed(before + s + behind) == trimmed(s),
    decreases before.len(),
{
    if before.len() == 0 {
        assert(before + s + behind =~= s + behind);
        lemma_trimmed_add(s, behind);
    } else {
        let all = before + s + behind;
        let rest = before.drop_first();
        assert(white(before[0]));
        assert forall|i: int| 0 <= i < rest.len() implies white(#[trigger] rest[i]) by {
            assert(rest[i] == before[i + 1]);
        }
        law_white_space_around_is_trimmed(rest, s, behind);
        assert(all[0] == before[0]);
        assert(all.drop_first() =~= rest + s + behind);
    }
}

/// The first character in which two texts differ decides which comes first; a text comes before
/// every longer one that begins with it, and after none of them.
pub proof fn law_first_difference_decides(
    start: Seq<char>,
    a: char,
    b: char,
    x: Seq<char>,
    y: Seq<char>,
)
    ensures
        a < b ==> text_le(start + seq![a] + x, start + seq![b] + y) && !text_le(
            start + seq![b] + y,
            start + seq![a] + x,
        ),
        text_le(start, start + x),
        x.len() > 0 ==> !text_le(start + x, start),
    decreases start.len(),
{
    let p = start + seq![a] + x;
    let q = start + seq![b] + y;
    if start.len() == 0 {
        assert(p[0] == a && q[0] == b);
        assert(start + x =~= x);
    } else {
        let rest = start.drop_first();
        law_first_difference_decides(rest, a, b, x, y);
        assert(p.drop_first() =~= rest + seq![a] + x);
        assert(q.drop_first() =~= rest + seq![b] + y);
        assert((start + x).drop_first() =~= rest + x);
        assert(p[0] == start[0] && q[0] == start[0] && (start + x)[0] == start[0]);
    }
}

/// A line ends at the first line feed, with the return before it where there is one, and is kept
/// as it is in all else; the lines behind it are those of the rest.
pub proof fn law_first_line_ends_at_the_line_feed(line: Seq<char>, rest: Seq<char>)
    requires
        forall|i: int| 0 <= i < line.len() ==> #[trigger] line[i] != '\n',
    ensures
        lines_of(line.push('\r').push('\n') + rest) == seq![line] + lines_of(rest),
        line.len() == 0 || line.last() != '\r' ==> lines_of(line.push('\n') + rest) == seq![line]
            + lines_of(rest),
        line.len() > 0 ==> lines_of(line) == seq![line],
        lines_of(Seq::empty()) == Seq::<Seq<char>>::empty(),
{
    let n = line.len() as int;
    let a = line.push('\n') + rest;
    assert forall|i: int| 0 <= i < n implies #[trigger] a[i] != '\n' by {
        assert(a[i] == line[i]);
    }
    lemma_line_end_at(a, n);
    assert(a.take(n) =~= line);
    assert(a.skip(n + 1) =~= rest);
    let b = line.push('\r').push('\n') + rest;
    assert forall|i: int| 0 <= i < n + 1 implies #[trigger] b[i] != '\n' by {
        if i < n {
            assert(b[i] == line[i]);
        }
    }
    lemma_line_end_at(b, n + 1);
    assert(b.take(n + 1) =~= line.push('\r'));
    assert(line.push('\r').drop_last() =~= line);
    assert(b.skip(n + 2) =~= rest);
    if n > 0 {
        lemma_line_end_at(line, n);
    }
}

/// Joining puts the separator between each two texts and nowhere else, and leaves the texts as
/// they are.
pub proof fn law_joined(parts: Seq<Seq<char>>, more: Seq<Seq<char>>, separator: Seq<char>)
    ensures
        joined(Seq::empty(), separator) == Seq::<char>::empty(),
        forall|part: Seq<char>| joined(#[trigger] seq![part], separator) == part,
        parts.len() > 0 && more.len() > 0 ==> joined(parts + more, separator) == joined(
            parts,
            separator,
        ) + separator + joined(more, separator),
{
    if parts.len() > 0 && more.len() > 0 {
        lemma_joined_add(parts, more, separator);
    }
}

/// Each of the texts that are joined stands in the result as it is, behind those before it and a
/// separator.
pub proof fn law_each_part_stands_in_joined(parts: Seq<Seq<char>>, separator: Seq<char>, i: int)
    requires
        0 <= i < parts.len(),
    ensures
        i == 0 ==> parts[0].is_prefix_of(joined(parts, separator)),
        i > 0 ==> (joined(parts.take(i), separator) + separator + parts[i]).is_prefix_of(
            joined(parts, separator),
        ),
    decreases parts.len(),
{
    let whole = joined(parts, separator);
    let start = if i == 0 {
        parts[0]
    } else {
        joined(parts.take(i), separator) + separator + parts[i]
    };
    if i == parts.len() - 1 {
        assert(parts.take(i) =~= parts.drop_last());
        assert(start =~= whole.subrange(0, start.len() as int));
    } else {
        let before = parts.drop_last();
        law_each_part_stands_in_joined(before, separator, i);
        assert(before.take(i) =~= parts.take(i));
        assert(whole =~= joined(before, separator) + (separator + parts.last()));
        assert(start =~= joined(before, separator).subrange(0, start.len() as int));
        assert(start =~= whole.subrange(0, start.len() as int));
    }
}

/// The number of characters of all the texts together.
pub open spec fn total_len(parts: Seq<Seq<char>>) -> nat
    decreases parts.len(),
{
    if parts.len() == 0 {
        0
    } else {
        total_len(parts.drop_last()) + parts.last().len()
    }
}

/// What is joined is as long as the texts together, and one separator for each but the first.
pub proof fn law_joined_len(parts: Seq<Seq<char>>, separator: Seq<char>)
    requires
        parts.len() > 0,
    ensures
        joined(parts, separator).len() == total_len(parts) + (parts.len() - 1) * separator.len(),
    decreases parts.len(),
{
    if parts.len() == 1 {
        reveal_with_fuel(total_len, 2);
        assert(0 * separator.len() == 0) by (nonlinear_arith);
    } else {
        law_joined_len(parts.drop_last(), separator);
        let n = parts.len() as int;
        let w = separator.len() as int;
        assert((n - 2) * w + w == (n - 1) * w) by (nonlinear_arith);
    }
}

/// Each text with its line feed behind it stands behind those before it.
pub proof fn law_terminated(parts: Seq<Seq<char>>, part: Seq<char>)
    ensures
        terminated(Seq::empty()) == Seq::<char>::empty(),
        terminated(parts.push(part)) == terminated(parts) + part + seq!['\n'],
{
    assert(parts.push(part).drop_last() =~= parts);
    assert(terminated(parts) + part.push('\n') =~= terminated(parts) + part + seq!['\n']);
}

/// The number that a sequence of decimal digits stands for.
pub open spec fn number_of(digits: Seq<char>) -> int
    decreases digits.len(),
{
    if digits.len() == 0 {
        0
    } else {
        10 * number_of(digits.drop_last()) + (digits.last() as int - '0' as int)
    }
}

/// The digits of a number, read as a number, are that number, and the first of them is a zero only
/// where it is the only one.
pub proof fn law_decimal_is_read_back(n: nat)
    ensures
        number_of(decimal(n)) == n,
        decimal(n).len() > 0,
        decimal(n).len() > 1 ==> decimal(n)[0] != '0',
        forall|i: int| 0 <= i < decimal(n).len() ==> '0' <= #[trigger] decimal(n)[i] <= '9',
    decreases n,
{
    lemma_decimal_is_digits(n);
    if n < 10 {
        assert(decimal(n).drop_last() =~= Seq::empty());
        reveal_with_fuel(number_of, 2);
    } else {
        law_decimal_is_read_back(n / 10);
        assert(decimal(n).drop_last() =~= decimal(n / 10));
        assert(decimal(n)[0] == decimal(n / 10)[0]);
        if n / 10 < 10 {
            assert(decimal(n / 10)[0] == digit(n / 10));
        } else {
            lemma_decimal_is_digits(n / 10 / 10);
        }
    }
}

/// Zeros in front do not change the number, and there are no more of them than the width asks
/// for.
pub proof fn law_zeros_in_front(digits: Seq<char>, width: nat)
    ensures
        number_of(zero_padded(digits, width)) == number_of(digits),
        digits.is_suffix_of(zero_padded(digits, width)),
        zero_padded(digits, width).len() == if digits.len() < width {
            width
        } else {
            digits.len()
        },
    decreases width - digits.len(),
{
    lemma_zero_padded_len(digits, width);
    if digits.len() < width {
        let longer = seq!['0'] + digits;
        law_zeros_in_front(longer, width);
        lemma_zero_in_front(digits);
        let all = zero_padded(longer, width);
        assert(longer =~= all.subrange(all.len() - longer.len(), all.len() as int));
        assert(digits =~= longer.subrange(1, longer.len() as int));
        assert(digits =~= all.subrange(all.len() - digits.len(), all.len() as int));
    } else {
        assert(digits =~= digits.subrange(0, digits.len() as int));
    }
}

proof fn lemma_zero_in_front(digits: Seq<char>)
    ensures
        number_of(seq!['0'] + digits) == number_of(digits),
    decreases digits.len(),
{
    let longer = seq!['0'] + digits;
    if digits.len() == 0 {
        assert(longer.drop_last() =~= Seq::empty());
        reveal_with_fuel(number_of, 2);
    } else {
        lemma_zero_in_front(digits.drop_last());
        assert(longer.drop_last() =~= seq!['0'] + digits.drop_last());
    }
}

/// The size of a text is the number of the bytes that it takes in UTF-8.
pub proof fn law_size_is_counted_in_bytes(s: &str, n: usize)
    requires
        call_ensures(byte_count, (s,), n),
    ensures
        n == vstd::utf8::encode_utf8(s@).len(),
        n == byte_len(s@),
{
}

/// White space, by the numbers that Unicode gives to its characters: the control characters
/// from tab to carriage return and the next line, the space and the no-break space, and the
/// spaces and separators of other scripts. No letter, digit or mark is among them, nor is a
/// space of no width.
pub proof fn law_white_space_by_number(c: char, yes: bool)
    requires
        call_ensures(is_white, (c,), yes),
    ensures
        c as int <= 0x7f ==> (yes <==> (9 <= c as int <= 13 || c as int == 32)),
        0x80 <= c as int <= 0xff ==> (yes <==> (c as int == 133 || c as int == 160)),
        0x100 <= c as int <= 0x1fff ==> (yes <==> c as int == 5760),
        0x2000 <= c as int <= 0x20ff ==> (yes <==> (8192 <= c as int <= 8202 || 8232 <= c as int
            <= 8233 || c as int == 8239 || c as int == 8287)),
        c as int >= 0x2100 ==> (yes <==> c as int == 12288),
{
}

} // verus!
