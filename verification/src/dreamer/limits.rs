//! Cutting texts down to a number of bytes and lines.
use vstd::prelude::*;

use crate::text;

verus! {

broadcast use vstd::seq::group_seq_axioms;

/// The number of bytes of a character in UTF-8.
pub open spec fn char_width(c: char) -> nat {
    vstd::utf8::encode_scalar(c as u32).len()
}

/// How many characters from the start of `s` fit into `max` bytes.
pub open spec fn fitting(s: Seq<char>, max: int) -> nat
    decreases s.len(),
{
    if s.len() == 0 || char_width(s[0]) > max {
        0
    } else {
        1 + fitting(s.drop_first(), max - char_width(s[0]))
    }
}

/// The longest start of `s` that takes at most `max` bytes and ends with a whole character.
pub open spec fn clipped(s: Seq<char>, max: int) -> Seq<char> {
    s.take(fitting(s, max) as int)
}

/// The number of bytes of a character in UTF-8.
fn char_width_of(c: char) -> (n: usize)
    ensures
        n == char_width(c),
{
    if c <= '\u{7f}' {
        1
    } else if c <= '\u{7ff}' {
        2
    } else if c <= '\u{ffff}' {
        3
    } else {
        4
    }
}

pub proof fn lemma_byte_len_add(a: Seq<char>, b: Seq<char>)
    ensures
        text::byte_len(a + b) == text::byte_len(a) + text::byte_len(b),
    decreases a.len(),
{
    if a.len() == 0 {
        assert(a + b =~= b);
    } else {
        lemma_byte_len_add(a.drop_first(), b);
        assert((a + b).drop_first() =~= a.drop_first() + b);
    }
}

pub proof fn lemma_byte_len_push(a: Seq<char>, c: char)
    ensures
        text::byte_len(a.push(c)) == text::byte_len(a) + char_width(c),
{
    lemma_byte_len_add(a, seq![c]);
    assert(a + seq![c] =~= a.push(c));
    assert(seq![c].drop_first() =~= Seq::<char>::empty());
    assert(text::byte_len(Seq::<char>::empty()) == 0);
    assert(text::byte_len(seq![c]) == char_width(c));
}

proof fn lemma_fitting_at(s: Seq<char>, n: int, max: int)
    requires
        0 <= n <= s.len(),
        text::byte_len(s.take(n)) <= max,
        n == s.len() || text::byte_len(s.take(n)) + char_width(s[n]) > max,
    ensures
        fitting(s, max) == n,
    decreases n,
{
    if n > 0 {
        let rest = s.drop_first();
        let w = char_width(s[0]);
        assert(s.take(n).drop_first() =~= rest.take(n - 1));
        assert(text::byte_len(s.take(n)) == w + text::byte_len(rest.take(n - 1)));
        if n < s.len() {
            assert(rest[n - 1] == s[n]);
        }
        lemma_fitting_at(rest, n - 1, max - w);
    } else {
        assert(text::byte_len(s.take(0)) == 0);
    }
}

/// The longest start of `content` that takes at most `max_bytes` bytes and ends with a whole
/// character.
pub fn truncate_utf8_bytes(content: &str, max_bytes: usize) -> (r: String)
    ensures
        r@ == clipped(content@, max_bytes as int),
{
    let chars = text::to_chars(content);
    let mut n: usize = 0;
    let mut used: usize = 0;
    proof {
        assert(text::byte_len(chars@.take(0)) == 0);
    }
    while n < chars.len() && char_width_of(chars[n]) <= max_bytes - used
        invariant
            n <= chars@.len(),
            used == text::byte_len(chars@.take(n as int)),
            used <= max_bytes,
        decreases chars@.len() - n,
    {
        used = used + char_width_of(chars[n]);
        proof {
            lemma_byte_len_push(chars@.take(n as int), chars@[n as int]);
            assert(chars@.take(n as int).push(chars@[n as int]) =~= chars@.take(n + 1));
        }
        n = n + 1;
    }
    proof {
        lemma_fitting_at(content@, n as int, max_bytes as int);
        assert(content@.take(n as int) =~= chars@.subrange(0, n as int));
    }
    text::from_chars(&chars, 0, n)
}

proof fn lemma_fitting_bound(s: Seq<char>, max: int)
    requires
        0 <= max,
    ensures
        fitting(s, max) <= s.len(),
        text::byte_len(s.take(fitting(s, max) as int)) <= max,
        fitting(s, max) < s.len() ==> text::byte_len(s.take(fitting(s, max) as int + 1)) > max,
    decreases s.len(),
{
    let n = fitting(s, max) as int;
    if n == 0 {
        assert(text::byte_len(s.take(0)) == 0);
        if s.len() > 0 {
            assert(s.take(1) =~= Seq::<char>::empty().push(s[0]));
            lemma_byte_len_push(Seq::empty(), s[0]);
        }
    } else {
        let rest = s.drop_first();
        let w = char_width(s[0]);
        lemma_fitting_bound(rest, max - w);
        assert(s.take(n).drop_first() =~= rest.take(n - 1));
        assert(text::byte_len(s.take(n)) == w + text::byte_len(rest.take(n - 1)));
        if n < s.len() {
            assert(s.take(n + 1).drop_first() =~= rest.take(n));
            assert(text::byte_len(s.take(n + 1)) == w + text::byte_len(rest.take(n)));
        }
    }
}

/// A text cut down to a number of bytes is a start of the text that does not take more than
/// those bytes, and no longer start takes as few; a text that fits is kept whole.
pub proof fn law_clipped(s: Seq<char>, max: int)
    requires
        0 <= max,
    ensures
        clipped(s, max).is_prefix_of(s),
        text::byte_len(clipped(s, max)) <= max,
        forall|t: Seq<char>|
            #![trigger text::byte_len(t)]
            t.is_prefix_of(s) && text::byte_len(t) <= max ==> t.len() <= clipped(s, max).len(),
        text::byte_len(s) <= max <==> clipped(s, max) == s,
{
    lemma_fitting_bound(s, max);
    let n = fitting(s, max) as int;
    assert(clipped(s, max) =~= s.subrange(0, n));
    assert forall|t: Seq<char>|
        #![trigger text::byte_len(t)]
        t.is_prefix_of(s) && text::byte_len(t) <= max implies t.len() <= n by {
        if t.len() > n {
            let more = s.take(n + 1);
            assert(t =~= more + t.skip(n + 1));
            lemma_byte_len_add(more, t.skip(n + 1));
        }
    }
    assert(s =~= s.take(s.len() as int));
    assert(s.is_prefix_of(s)) by {
        assert(s =~= s.subrange(0, s.len() as int));
    }
    if text::byte_len(s) <= max {
        assert(n == s.len());
    }
}

// ---------------------------------------------------------------------------
// Texts for a prompt
// ---------------------------------------------------------------------------

/// The start of `content` within a number of bytes and of lines, with a note behind it where
/// something was left out.
pub open spec fn excerpt(content: Seq<char>, max_bytes: nat, max_lines: nat) -> Seq<char> {
    let capped = clipped(content, max_bytes as int);
    let all = text::lines_of(capped);
    let kept = if all.len() <= max_lines {
        all
    } else {
        all.take(max_lines as int)
    };
    let text = text::joined(kept, "\n"@);
    if capped.len() < content.len() || all.len() > max_lines {
        text + "\n\n[truncated]"@
    } else {
        text
    }
}

/// Cuts a text down to a number of bytes and of lines.
pub fn truncate_for_prompt(content: &str, max_bytes: usize, max_lines: usize) -> (r: String)
    ensures
        r@ == excerpt(content@, max_bytes as nat, max_lines as nat),
{
    let byte_capped = truncate_utf8_bytes(content, max_bytes);
    let mut kept = text::lines(byte_capped.as_str());
    let count: usize = kept.len();
    let ghost all = text::texts(kept@);
    kept.truncate(max_lines);
    proof {
        assert(text::texts(kept@) =~= if all.len() <= max_lines {
            all
        } else {
            all.take(max_lines as int)
        });
        lemma_fitting_bound(content@, max_bytes as int);
        let n = byte_capped@.len() as int;
        assert(content@ =~= byte_capped@ + content@.skip(n));
        lemma_byte_len_add(byte_capped@, content@.skip(n));
        lemma_byte_len_zero(content@.skip(n));
    }
    let mut r = text::join(&kept, "\n");
    if text::byte_count(content) > text::byte_count(byte_capped.as_str()) || count > max_lines {
        r.append("\n\n[truncated]");
    }
    r
}

/// Joined by line feeds, the lines of a text take no more bytes than the text.
proof fn lemma_joined_lines_fit(s: Seq<char>)
    ensures
        text::byte_len(text::joined(text::lines_of(s), seq!['\n'])) <= text::byte_len(s),
    decreases s.len(),
{
    let feed = seq!['\n'];
    if s.len() == 0 {
        assert(text::lines_of(s) =~= Seq::empty());
    } else {
        text::lemma_line_end_shape(s);
        let n = text::line_end(s) as int;
        if n < s.len() {
            let line = s.take(n);
            let rest = s.skip(n + 1);
            lemma_joined_lines_fit(rest);
            text::lemma_joined_front(text::without_return(line), text::lines_of(rest), feed);
            assert(s =~= line + feed + rest);
            lemma_byte_len_add(line + feed, rest);
            lemma_byte_len_add(line, feed);
            lemma_byte_len_add(
                text::without_return(line) + feed,
                text::joined(text::lines_of(rest), feed),
            );
            lemma_byte_len_add(text::without_return(line), feed);
            if text::without_return(line).len() < line.len() {
                lemma_byte_len_push(line.drop_last(), line.last());
                assert(line.drop_last().push(line.last()) =~= line);
            }
        } else {
            assert(text::lines_of(s) =~= seq![s]);
        }
    }
}

proof fn lemma_joined_take_fits(parts: Seq<Seq<char>>, n: int, separator: Seq<char>)
    requires
        0 <= n <= parts.len(),
    ensures
        text::byte_len(text::joined(parts.take(n), separator)) <= text::byte_len(
            text::joined(parts, separator),
        ),
    decreases parts.len(),
{
    if n < parts.len() {
        let before = parts.drop_last();
        lemma_joined_take_fits(before, n, separator);
        assert(before.take(n) =~= parts.take(n));
        if parts.len() > 1 {
            let a = text::joined(before, separator);
            lemma_byte_len_add(a + separator, parts.last());
            lemma_byte_len_add(a, separator);
        } else {
            assert(parts.take(0) =~= Seq::empty());
        }
    } else {
        assert(parts.take(n) =~= parts);
    }
}

proof fn lemma_joined_line_feeds(parts: Seq<Seq<char>>)
    requires
        forall|i: int, j: int|
            0 <= i < parts.len() && 0 <= j < parts[i].len() ==> #[trigger] parts[i][j] != '\n',
    ensures
        text::line_feeds(text::joined(parts, seq!['\n'])) + 1 <= if parts.len() == 0 {
            1
        } else {
            parts.len() as int
        },
    decreases parts.len(),
{
    if parts.len() > 0 {
        assert forall|j: int| 0 <= j < parts.last().len() implies #[trigger] parts.last()[j]
            != '\n' by {
            assert(parts[parts.len() - 1][j] != '\n');
        }
        text::lemma_no_line_feeds(parts.last());
        if parts.len() > 1 {
            let before = parts.drop_last();
            assert forall|i: int, j: int|
                0 <= i < before.len() && 0 <= j < before[i].len() implies
                #[trigger] before[i][j] != '\n' by {
                assert(parts[i][j] != '\n');
            }
            lemma_joined_line_feeds(before);
            let feed = seq!['\n'];
            let a = text::joined(before, feed);
            text::lemma_line_feeds_add(a + feed, parts.last());
            text::lemma_line_feeds_add(a, feed);
            text::lemma_one_line_feed();
        }
    }
}

/// A text cut down for a prompt has at most two lines and thirteen bytes (those of the note
/// on what was left out) more than it was cut down to.
pub proof fn law_excerpt_is_bounded(content: Seq<char>, max_bytes: nat, max_lines: nat)
    ensures
        text::byte_len(excerpt(content, max_bytes, max_lines)) <= max_bytes + 13,
        text::line_feeds(excerpt(content, max_bytes, max_lines)) <= max_lines + 2,
        max_lines > 0 ==> text::line_feeds(excerpt(content, max_bytes, max_lines)) <= max_lines + 1,
        max_lines > 0 ==> text::lines_of(excerpt(content, max_bytes, max_lines)).len() <= max_lines
            + 2,
{
    let capped = clipped(content, max_bytes as int);
    let all = text::lines_of(capped);
    let kept = if all.len() <= max_lines {
        all
    } else {
        all.take(max_lines as int)
    };
    let feed = seq!['\n'];
    reveal_strlit("\n");
    assert("\n"@ =~= feed);
    law_clipped(content, max_bytes as int);
    lemma_joined_lines_fit(capped);
    assert(all.take(all.len() as int) =~= all);
    lemma_joined_take_fits(all, kept.len() as int, feed);
    text::law_lines_hold_no_line_feed(capped);
    assert forall|i: int, j: int|
        0 <= i < kept.len() && 0 <= j < kept[i].len() implies #[trigger] kept[i][j] != '\n' by {
        assert(all[i][j] != '\n');
    }
    lemma_joined_line_feeds(kept);
    let text = text::joined(kept, feed);
    let note = "\n\n[truncated]"@;
    reveal_strlit("\n\n[truncated]");
    lemma_byte_len_add(text, note);
    vstd::utf8::is_ascii_chars_encode_utf8(note);
    text::lemma_line_feeds_add(text, note);
    let word = note.skip(2);
    assert(note =~= feed + (feed + word));
    text::lemma_line_feeds_add(feed, feed + word);
    text::lemma_line_feeds_add(feed, word);
    text::lemma_no_line_feeds(word);
    text::lemma_one_line_feed();
    text::law_line_count(excerpt(content, max_bytes, max_lines));
}

proof fn lemma_byte_len_zero(s: Seq<char>)
    ensures
        text::byte_len(s) == 0 <==> s.len() == 0,
{
}

pub proof fn lemma_lines_of_plain_text(s: Seq<char>)
    requires
        text::returns_stay(s),
        s.len() > 0,
        s.last() != '\n',
    ensures
        text::lines_of(s) == text::pieces_of(s, '\n'),
        text::joined(text::lines_of(s), "\n"@) == s,
{
    reveal_strlit("\n");
    assert("\n"@ =~= seq!['\n']);
    let pieces = text::pieces_of(s, '\n');
    text::lemma_pieces_are_plain_lines(s);
    text::law_joined_pieces(s, '\n');
    text::lemma_pieces_nonempty(s.drop_last(), '\n');
    assert(pieces.last().len() > 0);
    text::law_lines_of_joined(pieces);
}

/// A text within the limits is kept as it is, with nothing behind it, where it does not end with a
/// line feed and no return stands before one.
pub proof fn law_short_texts_are_kept(
    content: &str,
    max_bytes: usize,
    max_lines: usize,
    r: String,
)
    requires
        call_ensures(truncate_for_prompt, (content, max_bytes, max_lines), r),
        text::byte_len(content@) <= max_bytes,
        text::lines_of(content@).len() <= max_lines,
        text::returns_stay(content@),
        content@.len() == 0 || content@.last() != '\n',
    ensures
        r@ == content@,
{
    law_clipped(content@, max_bytes as int);
    if content@.len() > 0 {
        lemma_lines_of_plain_text(content@);
    } else {
        assert(text::lines_of(content@) =~= Seq::empty());
        assert(r@ =~= content@);
    }
}

proof fn lemma_first_lines_are_the_start(s: Seq<char>, n: int)
    requires
        0 <= n <= text::lines_of(s).len(),
        forall|i: int| 0 <= i < s.len() ==> #[trigger] s[i] != '\r',
    ensures
        text::joined(text::lines_of(s).take(n), seq!['\n']).is_prefix_of(s),
    decreases s.len(),
{
    let lines = text::lines_of(s);
    let feed = seq!['\n'];
    let start = text::joined(lines.take(n), feed);
    text::lemma_line_end_shape(s);
    let e = text::line_end(s) as int;
    if n == 0 {
        assert(lines.take(0) =~= Seq::empty());
        assert(start =~= s.subrange(0, 0));
    } else if e >= s.len() {
        assert(lines.take(1) =~= seq![s]);
        assert(start =~= s.subrange(0, s.len() as int));
    } else {
        let line = s.take(e);
        let rest = s.skip(e + 1);
        if e > 0 {
            assert(line.last() == s[e - 1]);
        }
        assert(text::without_return(line) == line);
        let later = text::lines_of(rest);
        assert(lines =~= seq![line] + later);
        assert(lines.take(n) =~= seq![line] + later.take(n - 1));
        assert forall|i: int| 0 <= i < rest.len() implies #[trigger] rest[i] != '\r' by {
            assert(rest[i] == s[i + e + 1]);
        }
        lemma_first_lines_are_the_start(rest, n - 1);
        text::lemma_joined_front(line, later.take(n - 1), feed);
        if n == 1 {
            assert(start =~= s.subrange(0, e));
        } else {
            let tail = text::joined(later.take(n - 1), feed);
            assert(tail =~= rest.subrange(0, tail.len() as int));
            assert(start =~= line + feed + tail);
            assert(start =~= s.subrange(0, start.len() as int));
        }
    }
}

/// A text beyond a limit is cut to its start, and a note behind it says so: what is kept is as many
/// of the first lines of what fits into the bytes as there may be lines, and without returns it is a
/// start of the text itself.
pub proof fn law_long_texts_are_cut(
    content: &str,
    max_bytes: usize,
    max_lines: usize,
    r: String,
) -> (kept: Seq<char>)
    requires
        call_ensures(truncate_for_prompt, (content, max_bytes, max_lines), r),
    ensures
        ({
            let capped = clipped(content@, max_bytes as int);
            let lines = text::lines_of(capped);
            let cut = text::byte_len(content@) > max_bytes || lines.len() > max_lines;
            &&& cut ==> r@ == kept + "\n\n[truncated]"@
            &&& !cut ==> r@ == kept
            &&& lines.len() <= max_lines ==> kept == text::joined(lines, seq!['\n'])
            &&& lines.len() > max_lines ==> kept == text::joined(
                lines.take(max_lines as int),
                seq!['\n'],
            )
            &&& (forall|i: int| 0 <= i < content@.len() ==> #[trigger] content@[i] != '\r')
                ==> kept.is_prefix_of(content@)
        }),
{
    reveal_strlit("\n");
    assert("\n"@ =~= seq!['\n']);
    law_clipped(content@, max_bytes as int);
    let capped = clipped(content@, max_bytes as int);
    let lines = text::lines_of(capped);
    let n = if lines.len() <= max_lines {
        lines.len() as int
    } else {
        max_lines as int
    };
    assert(lines.take(lines.len() as int) =~= lines);
    let kept = text::joined(lines.take(n), seq!['\n']);
    if forall|i: int| 0 <= i < content@.len() ==> #[trigger] content@[i] != '\r' {
        assert forall|i: int| 0 <= i < capped.len() implies #[trigger] capped[i] != '\r' by {
            assert(capped[i] == content@[i]);
        }
        lemma_first_lines_are_the_start(capped, n);
        assert(kept =~= content@.subrange(0, kept.len() as int));
    }
    if capped.len() == content@.len() {
        assert(capped =~= content@);
    }
    kept
}

/// A text is cut to the longest start of it that fits into the bytes.
pub proof fn law_texts_are_cut_between_characters(content: &str, max_bytes: usize, r: String)
    requires
        call_ensures(truncate_utf8_bytes, (content, max_bytes), r),
    ensures
        r@.is_prefix_of(content@),
        text::byte_len(r@) <= max_bytes,
        r@.len() < content@.len() ==> text::byte_len(content@.take(r@.len() as int + 1))
            > max_bytes,
{
    law_clipped(content@, max_bytes as int);
    if r@.len() < content@.len() {
        let longer = content@.take(r@.len() as int + 1);
        assert(longer =~= content@.subrange(0, longer.len() as int));
        assert(longer.is_prefix_of(content@));
    }
}

} // verus!
