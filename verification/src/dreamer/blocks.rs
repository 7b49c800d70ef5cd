//! Files that are put into a reply as blocks are read from it as they were, and replies that are
//! put below one another as they would be apart.
use vstd::prelude::*;

use super::output;
use super::DreamerFileOutputView;
use crate::paths::PathStyle;
use crate::text;

verus! {

broadcast use vstd::seq::group_seq_axioms;

/// The line that opens the block of a file.
pub open spec fn opening_line(path: Seq<char>) -> Seq<char> {
    "--- FILE: "@ + path + " ---"@
}

/// The block of a file.
pub open spec fn block_text(file: DreamerFileOutputView) -> Seq<char> {
    opening_line(file.path) + "\n"@ + file.markdown + "\n"@ + "--- END FILE ---"@
}

/// The blocks of files, one below another.
pub open spec fn blocks_text(files: Seq<DreamerFileOutputView>) -> Seq<char> {
    text::joined(Seq::new(files.len(), |i: int| block_text(files[i])), "\n"@)
}

/// Whether a file can stand in a block: its path is one that may be written, and stands on one
/// line without white space around it; its text has no white space around it either, and no line
/// that would open or close a block, nor one that ends with a return.
pub open spec fn stands_in_block(style: PathStyle, file: DreamerFileOutputView) -> bool {
    &&& output::path_fault(style, file.path) is None
    &&& file.path.len() > 0
    &&& text::trimmed(file.path) == file.path
    &&& forall|i: int| 0 <= i < file.path.len() ==> #[trigger] file.path[i] != '\n'
    &&& text::trimmed(file.markdown) == file.markdown
    &&& text::returns_stay(file.markdown)
    &&& forall|i: int|
        0 <= i < text::pieces_of(file.markdown, '\n').len() ==> {
            let line = #[trigger] text::pieces_of(file.markdown, '\n')[i];
            !output::opens_block(line) && !output::closes_block(line)
        }
}

spec fn block_lines(file: DreamerFileOutputView) -> Seq<Seq<char>> {
    seq![opening_line(file.path)] + text::pieces_of(file.markdown, '\n') + seq![
        "--- END FILE ---"@,
    ]
}

spec fn all_lines(files: Seq<DreamerFileOutputView>) -> Seq<Seq<char>>
    decreases files.len(),
{
    if files.len() == 0 {
        Seq::empty()
    } else {
        block_lines(files[0]) + all_lines(files.skip(1))
    }
}

proof fn lemma_opening_line(path: Seq<char>)
    requires
        path.len() > 0,
        text::trimmed(path) == path,
        forall|i: int| 0 <= i < path.len() ==> #[trigger] path[i] != '\n',
    ensures
        output::marker_path(opening_line(path)) == Some(path),
        text::plain_line(opening_line(path)),
{
    reveal_strlit("--- FILE: ");
    reveal_strlit(" ---");
    let line = opening_line(path);
    text::lemma_trimmed_same(line);
    let rest = line.skip(10);
    assert(rest =~= path + " ---"@);
    assert("--- FILE: "@ =~= line.subrange(0, 10));
    assert(" ---"@ =~= rest.subrange(rest.len() - 4, rest.len() as int));
    assert(rest.take(rest.len() - 4) =~= path);
}

proof fn lemma_closing_line()
    ensures
        output::closes_block("--- END FILE ---"@),
        !output::opens_block("--- END FILE ---"@),
        text::plain_line("--- END FILE ---"@),
        "--- END FILE ---"@.len() > 0,
{
    reveal_strlit("--- FILE: ");
    reveal_strlit("--- END FILE ---");
    let line = "--- END FILE ---"@;
    text::lemma_trimmed_same(line);
    assert("--- FILE: "@[4] != line.subrange(0, 10)[4]);
}

proof fn lemma_block_end_at(lines: Seq<Seq<char>>, i: int, end: int)
    requires
        0 <= i <= end < lines.len(),
        forall|j: int|
            i <= j < end ==> !output::opens_block(#[trigger] lines[j]) && !output::closes_block(
                lines[j],
            ),
        output::closes_block(lines[end]),
    ensures
        output::block_end(lines, i) == end,
    decreases end - i,
{
    if i < end {
        lemma_block_end_at(lines, i + 1, end);
    }
}

proof fn lemma_no_blocks_before(lines: Seq<Seq<char>>, i: int, end: int)
    requires
        0 <= i <= end <= lines.len(),
        forall|j: int| i <= j < end ==> !output::opens_block(#[trigger] lines[j]),
    ensures
        output::block_files(lines, i) == output::block_files(lines, end),
    decreases end - i,
{
    if i < end {
        lemma_no_blocks_before(lines, i + 1, end);
    }
}

proof fn lemma_block_end_behind(front: Seq<Seq<char>>, lines: Seq<Seq<char>>, i: int)
    requires
        0 <= i <= lines.len(),
    ensures
        output::block_end(front + lines, front.len() + i) == front.len() + output::block_end(
            lines,
            i,
        ),
        i <= output::block_end(lines, i) <= lines.len(),
    decreases lines.len() - i,
{
    let all = front + lines;
    if i < lines.len() {
        assert(all[front.len() + i] == lines[i]);
        lemma_block_end_behind(front, lines, i + 1);
    }
}

proof fn lemma_blocks_behind(front: Seq<Seq<char>>, lines: Seq<Seq<char>>, i: int)
    requires
        0 <= i <= lines.len(),
    ensures
        output::block_files(front + lines, front.len() + i) == output::block_files(lines, i),
    decreases lines.len() - i,
{
    let all = front + lines;
    let n = front.len() as int;
    if i < lines.len() {
        assert(all[n + i] == lines[i]);
        lemma_blocks_behind(front, lines, i + 1);
        lemma_block_end_behind(front, lines, i + 1);
        let end = output::block_end(lines, i + 1);
        assert(all.subrange(n + i + 1, n + end) =~= lines.subrange(i + 1, end));
    }
}

proof fn lemma_terminated(parts: Seq<Seq<char>>)
    requires
        parts.len() > 0,
    ensures
        text::terminated(parts) == text::joined(parts, seq!['\n']).push('\n'),
    decreases parts.len(),
{
    if parts.len() == 1 {
        assert(text::terminated(parts.drop_last()) =~= Seq::empty());
        assert(text::terminated(parts) =~= parts[0].push('\n'));
    } else {
        lemma_terminated(parts.drop_last());
        assert(text::terminated(parts) =~= text::joined(parts, seq!['\n']).push('\n'));
    }
}

proof fn lemma_block(style: PathStyle, file: DreamerFileOutputView, rest: Seq<Seq<char>>)
    requires
        stands_in_block(style, file),
    ensures
        output::block_files(block_lines(file) + rest, 0) == seq![file] + output::block_files(
            rest,
            0,
        ),
        output::opens_block(block_lines(file)[0]),
        text::joined(block_lines(file), "\n"@) == block_text(file),
        block_lines(file).len() > 0,
        block_lines(file).last() == "--- END FILE ---"@,
        forall|i: int|
            0 <= i < block_lines(file).len() ==> text::plain_line(#[trigger] block_lines(file)[i]),
{
    reveal_strlit("\n");
    assert("\n"@ =~= seq!['\n']);
    lemma_opening_line(file.path);
    lemma_closing_line();
    text::lemma_pieces_are_plain_lines(file.markdown);
    text::law_joined_pieces(file.markdown, '\n');
    let pieces = text::pieces_of(file.markdown, '\n');
    let own = block_lines(file);
    let closing = seq!["--- END FILE ---"@];
    let lines = own + rest;
    let n = pieces.len() as int;
    assert(lines[0] == opening_line(file.path));
    assert(lines[n + 1] == "--- END FILE ---"@);
    assert forall|j: int| 1 <= j < n + 1 implies #[trigger] lines[j] == pieces[j - 1] by {}
    lemma_block_end_at(lines, 1, n + 1);
    lemma_no_blocks_before(lines, 1, n + 2);
    lemma_blocks_behind(own, rest, 0);
    assert(own.len() == n + 2);
    assert(lines.subrange(1, n + 1) =~= pieces);
    lemma_terminated(pieces);
    text::lemma_trimmed_push(file.markdown, '\n');
    assert(output::block_file(lines, 0) == file);
    text::lemma_joined_front(opening_line(file.path), pieces + closing, "\n"@);
    text::lemma_joined_add(pieces, closing, "\n"@);
    assert(text::joined(closing, "\n"@) == "--- END FILE ---"@);
    assert(own =~= seq![opening_line(file.path)] + (pieces + closing));
    assert(text::joined(own, "\n"@) =~= block_text(file));
}

proof fn lemma_all_blocks(style: PathStyle, files: Seq<DreamerFileOutputView>)
    requires
        forall|i: int| 0 <= i < files.len() ==> stands_in_block(style, #[trigger] files[i]),
    ensures
        output::block_files(all_lines(files), 0) == files,
        files.len() > 0 ==> {
            &&& all_lines(files).len() > 0
            &&& output::opens_block(all_lines(files)[0])
            &&& all_lines(files).last() == "--- END FILE ---"@
        },
        text::joined(all_lines(files), "\n"@) == blocks_text(files),
        forall|i: int|
            0 <= i < all_lines(files).len() ==> text::plain_line(#[trigger] all_lines(files)[i]),
        output::first_path_fault(style, files) is None,
    decreases files.len(),
{
    let blocks = Seq::new(files.len(), |i: int| block_text(files[i]));
    if files.len() == 0 {
        assert(output::block_files(all_lines(files), 0) =~= files);
    } else {
        let file = files[0];
        let others = files.skip(1);
        let rest = all_lines(others);
        assert(stands_in_block(style, file));
        assert forall|i: int| 0 <= i < others.len() implies stands_in_block(
            style,
            #[trigger] others[i],
        ) by {
            assert(others[i] == files[i + 1]);
        }
        lemma_all_blocks(style, others);
        lemma_block(style, file, rest);
        let other_blocks = Seq::new(others.len(), |i: int| block_text(others[i]));
        assert(blocks =~= seq![block_text(file)] + other_blocks);
        text::lemma_joined_front(block_text(file), other_blocks, "\n"@);
        if others.len() == 0 {
            assert(block_lines(file) + rest =~= block_lines(file));
        } else {
            text::lemma_joined_add(block_lines(file), rest, "\n"@);
        }
        assert(seq![file] + others =~= files);
        assert(files.drop_first() =~= others);
        let lines = all_lines(files);
        assert forall|i: int| 0 <= i < lines.len() implies text::plain_line(#[trigger] lines[i]) by {
            let own = block_lines(file);
            if i < own.len() {
                assert(lines[i] == own[i]);
            } else {
                assert(lines[i] == rest[i - own.len()]);
            }
        }
    }
}

/// Files that are put into a reply as blocks are read from it as they were, whatever white space
/// stands around the whole.
pub proof fn law_blocks_are_read_back(
    style: PathStyle,
    raw: Seq<char>,
    files: Seq<DreamerFileOutputView>,
)
    requires
        files.len() > 0,
        forall|i: int| 0 <= i < files.len() ==> stands_in_block(style, #[trigger] files[i]),
        text::trimmed(raw) == blocks_text(files),
    ensures
        output::parsed_output(style, raw) == Ok::<_, super::DreamerErrorView>(files),
{
    let lines = all_lines(files);
    lemma_all_blocks(style, files);
    lemma_closing_line();
    text::law_lines_of_joined(lines);
    assert(output::opens_block(lines[0]));
    assert(blocks_text(files).len() > 0) by {
        if blocks_text(files).len() == 0 {
            assert(text::lines_of(blocks_text(files)).len() == 0);
        }
    }
}

// ---------------------------------------------------------------------------
// Replies below one another
// ---------------------------------------------------------------------------

/// The files of the blocks in a text.
spec fn found_files(s: Seq<char>) -> Seq<DreamerFileOutputView> {
    output::block_files(text::lines_of(s), 0)
}

/// Whether two texts differ by at most a white space at the end.
spec fn near(x: Seq<char>, y: Seq<char>) -> bool {
    ||| x == y
    ||| x.len() > 0 && text::white(x.last()) && x.drop_last() == y
    ||| y.len() > 0 && text::white(y.last()) && y.drop_last() == x
}

proof fn lemma_near(x: Seq<char>, y: Seq<char>, z: Seq<char>)
    requires
        near(x, y),
    ensures
        text::trimmed(x) == text::trimmed(y),
        text::trimmed(z + x.push('\n')) == text::trimmed(z + y.push('\n')),
{
    assert((z + x).push('\n') =~= z + x.push('\n'));
    assert((z + y).push('\n') =~= z + y.push('\n'));
    text::lemma_trimmed_push(z + x, '\n');
    text::lemma_trimmed_push(z + y, '\n');
    if x.len() > 0 && text::white(x.last()) && x.drop_last() == y {
        text::lemma_trimmed_push(y, x.last());
        text::lemma_trimmed_push(z + y, x.last());
        assert(y.push(x.last()) =~= x);
        assert((z + y).push(x.last()) =~= z + x);
    } else if y.len() > 0 && text::white(y.last()) && y.drop_last() == x {
        text::lemma_trimmed_push(x, y.last());
        text::lemma_trimmed_push(z + x, y.last());
        assert(x.push(y.last()) =~= y);
        assert((z + x).push(y.last()) =~= z + y);
    }
}

proof fn lemma_blank_line(y: Seq<char>)
    requires
        text::blank(y),
    ensures
        text::trimmed(y).len() == 0,
        !output::opens_block(y),
        !output::closes_block(y),
{
    text::law_trimmed_empty_iff_blank(y);
    reveal_strlit("--- FILE: ");
    reveal_strlit("--- END FILE ---");
}

proof fn lemma_block_end_last(pre: Seq<Seq<char>>, x: Seq<char>, y: Seq<char>, i: int)
    requires
        0 <= i <= pre.len() + 1,
        text::trimmed(x) == text::trimmed(y),
    ensures
        output::block_end(pre.push(x), i) == output::block_end(pre.push(y), i),
        i <= output::block_end(pre.push(x), i) <= pre.len() + 1,
    decreases pre.len() + 1 - i,
{
    if i <= pre.len() {
        lemma_block_end_last(pre, x, y, i + 1);
        if i < pre.len() {
            assert(pre.push(x)[i] == pre[i]);
            assert(pre.push(y)[i] == pre[i]);
        }
    }
}

proof fn lemma_last_line(pre: Seq<Seq<char>>, x: Seq<char>, y: Seq<char>, i: int)
    requires
        0 <= i <= pre.len() + 1,
        near(x, y),
    ensures
        output::block_files(pre.push(x), i) == output::block_files(pre.push(y), i),
    decreases pre.len() + 1 - i,
{
    let p = pre.push(x);
    let q = pre.push(y);
    lemma_near(x, y, Seq::empty());
    if i <= pre.len() {
        lemma_last_line(pre, x, y, i + 1);
        lemma_block_end_last(pre, x, y, i + 1);
        let end = output::block_end(p, i + 1);
        if i < pre.len() {
            assert(p[i] == q[i]);
        }
        let a = p.subrange(i + 1, end);
        let b = q.subrange(i + 1, end);
        if end <= pre.len() {
            assert(a =~= b);
        } else if i < pre.len() {
            let sub = pre.subrange(i + 1, pre.len() as int);
            assert(a.drop_last() =~= sub && a.last() == x);
            assert(b.drop_last() =~= sub && b.last() == y);
            lemma_near(x, y, text::terminated(sub));
        } else {
            assert(a =~= b);
        }
    }
}

proof fn lemma_block_end_blank(pre: Seq<Seq<char>>, y: Seq<char>, i: int)
    requires
        0 <= i <= pre.len(),
        text::blank(y),
    ensures
        i <= output::block_end(pre, i) <= pre.len(),
        output::block_end(pre.push(y), i) == if output::block_end(pre, i) < pre.len() {
            output::block_end(pre, i)
        } else {
            pre.len() as int + 1
        },
    decreases pre.len() - i,
{
    let q = pre.push(y);
    lemma_blank_line(y);
    if i < pre.len() {
        assert(q[i] == pre[i]);
        lemma_block_end_blank(pre, y, i + 1);
    } else {
        reveal_with_fuel(output::block_end, 3);
        assert(q[i] == y);
    }
}

proof fn lemma_blank_last_line(pre: Seq<Seq<char>>, y: Seq<char>, i: int)
    requires
        0 <= i <= pre.len(),
        text::blank(y),
    ensures
        output::block_files(pre.push(y), i) == output::block_files(pre, i),
    decreases pre.len() - i,
{
    let q = pre.push(y);
    lemma_blank_line(y);
    if i < pre.len() {
        assert(q[i] == pre[i]);
        lemma_blank_last_line(pre, y, i + 1);
        lemma_block_end_blank(pre, y, i + 1);
        let end = output::block_end(pre, i + 1);
        let a = pre.subrange(i + 1, end);
        if end < pre.len() {
            assert(q.subrange(i + 1, end) =~= a);
        } else {
            let b = q.subrange(i + 1, end + 1);
            assert(b.drop_last() =~= a && b.last() == y);
            let body = text::terminated(a);
            let tail = y.push('\n');
            assert forall|k: int| 0 <= k < tail.len() implies text::white(#[trigger] tail[k]) by {
                if k < y.len() {
                    assert(text::white(y[k]));
                }
            }
            text::lemma_trimmed_add(body, tail);
        }
    } else {
        reveal_with_fuel(output::block_files, 3);
        assert(q[i] == y);
    }
}

/// One white space more at the end of a text changes at most its last line, by no more than a
/// white space, or adds a blank line.
proof fn lemma_lines_push(t: Seq<char>, c: char) -> (lines: (Seq<Seq<char>>, Seq<char>, Seq<char>))
    requires
        text::white(c),
    ensures
        text::lines_of(t.push(c)) == lines.0.push(lines.2),
        (text::lines_of(t) == lines.0 && text::blank(lines.2)) || (text::lines_of(t)
            == lines.0.push(lines.1) && near(lines.1, lines.2)),
    decreases t.len(),
{
    let s = t.push(c);
    text::lemma_line_end_shape(t);
    let n = text::line_end(t) as int;
    assert forall|k: int| 0 <= k < n implies #[trigger] s[k] != '\n' by {
        assert(s[k] == t[k]);
    }
    if n < t.len() {
        text::lemma_line_end_at(s, n);
        let rest = t.skip(n + 1);
        let (pre, x, y) = lemma_lines_push(rest, c);
        let line = text::without_return(t.take(n));
        assert(s.take(n) =~= t.take(n));
        assert(s.skip(n + 1) =~= rest.push(c));
        let all = seq![line] + pre;
        assert(seq![line] + pre.push(y) =~= all.push(y));
        assert(seq![line] + pre.push(x) =~= all.push(x));
        (all, x, y)
    } else if c == '\n' {
        text::lemma_line_end_at(s, n);
        let y = text::without_return(t);
        assert(s.take(n) =~= t);
        assert(text::lines_of(s.skip(n + 1)) =~= Seq::empty());
        assert(text::lines_of(s) =~= Seq::<Seq<char>>::empty().push(y));
        if t.len() > 0 {
            assert(text::lines_of(t) =~= Seq::<Seq<char>>::empty().push(t));
        }
        (Seq::empty(), t, y)
    } else {
        text::lemma_line_end_at(s, n + 1);
        assert(text::lines_of(s) =~= Seq::<Seq<char>>::empty().push(s));
        if t.len() > 0 {
            assert(text::lines_of(t) =~= Seq::<Seq<char>>::empty().push(t));
            assert(s.drop_last() =~= t);
        }
        (Seq::empty(), t, s)
    }
}

proof fn lemma_found_before_end(s: Seq<char>)
    ensures
        found_files(text::trimmed_end(s)) == found_files(s),
    decreases s.len(),
{
    if s.len() > 0 && text::white(s.last()) {
        let t = s.drop_last();
        assert(t.push(s.last()) =~= s);
        lemma_found_before_end(t);
        let (pre, x, y) = lemma_lines_push(t, s.last());
        if text::lines_of(t) == pre.push(x) && near(x, y) {
            lemma_last_line(pre, x, y, 0);
        } else {
            lemma_blank_last_line(pre, y, 0);
        }
    }
}

proof fn lemma_first_line(x: Seq<char>, y: Seq<char>, rest: Seq<Seq<char>>)
    requires
        text::trimmed(x) == text::trimmed(y),
    ensures
        output::block_files(seq![x] + rest, 0) == output::block_files(seq![y] + rest, 0),
{
    let p = seq![x] + rest;
    let q = seq![y] + rest;
    lemma_blocks_behind(seq![x], rest, 0);
    lemma_blocks_behind(seq![y], rest, 0);
    lemma_block_end_behind(seq![x], rest, 0);
    lemma_block_end_behind(seq![y], rest, 0);
    let end = output::block_end(rest, 0);
    assert(p.subrange(1, 1 + end) =~= rest.subrange(0, end));
    assert(q.subrange(1, 1 + end) =~= rest.subrange(0, end));
    assert(p[0] == x && q[0] == y);
}

proof fn lemma_found_behind_white(s: Seq<char>)
    requires
        s.len() > 0,
        text::white(s[0]),
    ensures
        found_files(s.drop_first()) == found_files(s),
{
    let c = s[0];
    let t = s.drop_first();
    text::lemma_line_end_shape(t);
    let n = text::line_end(t) as int;
    if c == '\n' {
        text::lemma_line_end_at(s, 0);
        assert(s.take(0) =~= Seq::empty());
        assert(s.skip(1) =~= t);
        let empty = Seq::<char>::empty();
        let rest = text::lines_of(t);
        assert(text::lines_of(s) =~= seq![empty] + rest);
        lemma_blank_line(empty);
        lemma_blocks_behind(seq![empty], rest, 0);
        assert((seq![empty] + rest)[0] == empty);
    } else {
        assert forall|k: int| 0 <= k < n + 1 implies #[trigger] s[k] != '\n' by {
            if k > 0 {
                assert(s[k] == t[k - 1]);
            }
        }
        if n < t.len() {
            assert(s[n + 1] == t[n]);
        }
        text::lemma_line_end_at(s, n + 1);
        if t.len() == 0 {
            assert(text::lines_of(s) =~= Seq::<Seq<char>>::empty().push(s));
            assert(text::lines_of(t) =~= Seq::empty());
            assert(text::blank(s));
            lemma_blank_last_line(Seq::empty(), s, 0);
        } else if n >= t.len() {
            let none = Seq::<Seq<char>>::empty();
            assert(text::lines_of(s) =~= seq![s] + none);
            assert(text::lines_of(t) =~= seq![t] + none);
            lemma_first_line(s, t, none);
        } else {
            let rest = text::lines_of(t.skip(n + 1));
            let x = text::without_return(s.take(n + 1));
            let y = text::without_return(t.take(n));
            assert(s.skip(n + 2) =~= t.skip(n + 1));
            assert(text::trimmed(x) == text::trimmed(y)) by {
                if n == 0 {
                    assert(t.take(0) =~= Seq::empty());
                    if x.len() > 0 {
                        assert(x.drop_first() =~= y);
                        assert(x[0] == c);
                    } else {
                        assert(x =~= y);
                    }
                } else {
                    assert(s.take(n + 1).last() == t.take(n).last());
                    assert(x.drop_first() =~= y);
                    assert(x[0] == c);
                }
            }
            lemma_first_line(x, y, rest);
        }
    }
}

proof fn lemma_found_behind_start(s: Seq<char>)
    ensures
        found_files(text::trimmed_start(s)) == found_files(s),
    decreases s.len(),
{
    if s.len() > 0 && text::white(s[0]) {
        lemma_found_behind_white(s);
        lemma_found_behind_start(s.drop_first());
    }
}

proof fn lemma_found_in_trimmed(s: Seq<char>)
    ensures
        found_files(text::trimmed(s)) == found_files(s),
{
    lemma_found_behind_start(s);
    lemma_found_before_end(text::trimmed_start(s));
}

proof fn lemma_block_end_above(upper: Seq<Seq<char>>, lower: Seq<Seq<char>>, i: int)
    requires
        0 <= i <= upper.len(),
        lower.len() > 0,
        output::opens_block(lower[0]),
    ensures
        output::block_end(upper + lower, i) == output::block_end(upper, i),
        i <= output::block_end(upper, i) <= upper.len(),
    decreases upper.len() - i,
{
    let all = upper + lower;
    if i < upper.len() {
        assert(all[i] == upper[i]);
        lemma_block_end_above(upper, lower, i + 1);
    } else {
        assert(all[i] == lower[0]);
    }
}

proof fn lemma_blocks_above(upper: Seq<Seq<char>>, lower: Seq<Seq<char>>, i: int)
    requires
        0 <= i <= upper.len(),
        lower.len() > 0,
        output::opens_block(lower[0]),
    ensures
        output::block_files(upper + lower, i) == output::block_files(upper, i)
            + output::block_files(lower, 0),
    decreases upper.len() - i,
{
    let all = upper + lower;
    let below = output::block_files(lower, 0);
    if i < upper.len() {
        assert(all[i] == upper[i]);
        lemma_blocks_above(upper, lower, i + 1);
        lemma_block_end_above(upper, lower, i + 1);
        let end = output::block_end(upper, i + 1);
        assert(all.subrange(i + 1, end) =~= upper.subrange(i + 1, end));
        let rest = output::block_files(upper, i + 1);
        let file = output::block_file(upper, i);
        assert(seq![file] + (rest + below) =~= seq![file] + rest + below);
    } else {
        lemma_blocks_behind(upper, lower, 0);
        assert(output::block_files(upper, i) + below =~= below);
    }
}

proof fn lemma_path_faults_add(
    style: PathStyle,
    a: Seq<DreamerFileOutputView>,
    b: Seq<DreamerFileOutputView>,
)
    requires
        output::first_path_fault(style, a) is None,
        output::first_path_fault(style, b) is None,
    ensures
        output::first_path_fault(style, a + b) is None,
    decreases a.len(),
{
    if a.len() == 0 {
        assert(a + b =~= b);
    } else {
        lemma_path_faults_add(style, a.drop_first(), b);
        assert((a + b).drop_first() =~= a.drop_first() + b);
    }
}

/// A reply that has a block, and another below it that begins with one, are read together as they
/// are apart: the files of the first, then those of the second, with no text of one in the other,
/// and none left out.
pub proof fn law_replies_below_one_another(style: PathStyle, a: Seq<char>, b: Seq<char>)
    requires
        output::any_block(text::lines_of(text::trimmed(a))),
        text::lines_of(b).len() > 0,
        output::opens_block(text::lines_of(b)[0]),
        output::parsed_output(style, a) is Ok,
        output::parsed_output(style, b) is Ok,
    ensures
        output::parsed_output(style, a + "\n"@ + b) == Ok::<_, super::DreamerErrorView>(
            output::parsed_output(style, a)->Ok_0 + output::parsed_output(style, b)->Ok_0,
        ),
{
    reveal_strlit("\n");
    let upper = a + "\n"@;
    let raw = upper + b;
    assert(upper =~= a.push('\n'));
    let u = text::lines_of(upper);
    let l = text::lines_of(b);
    text::law_lines_below(upper, b);
    lemma_blocks_above(u, l, 0);
    lemma_found_in_trimmed(a);
    lemma_found_in_trimmed(b);
    lemma_found_in_trimmed(raw);
    lemma_found_in_trimmed(upper);
    text::lemma_trimmed_push(a, '\n');
    output::law_blocks_give_files(text::lines_of(text::trimmed(a)), 0);
    output::law_blocks_give_files(text::lines_of(text::trimmed(b)), 0);
    output::law_blocks_give_files(text::lines_of(text::trimmed(raw)), 0);
    output::law_blocks_give_files(l, 0);
    assert(found_files(raw) == found_files(a) + found_files(b));
    lemma_path_faults_add(style, found_files(a), found_files(b));
    let whole = text::trimmed(raw);
    assert(whole.len() > 0) by {
        if whole.len() == 0 {
            assert(text::lines_of(whole).len() == 0);
        }
    }
}

} // verus!
