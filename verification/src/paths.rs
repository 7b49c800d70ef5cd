//! Paths as texts, as Unix and Windows have them: which are absolute, which are a single name, and
//! how a name ends.
use vstd::prelude::*;

use crate::text;

verus! {

broadcast use vstd::seq::group_seq_axioms;

/// How the machine has its paths.
#[derive(Debug, Clone, Copy, PartialEq, Eq, Structural)]
pub enum PathStyle {
    /// A `/` separates the parts of a path, and begins an absolute one.
    Unix,
    /// A `/` or a `\` separates the parts of a path, and a drive or the like may precede them.
    Windows,
}

/// Whether a character separates the parts of a path.
pub open spec fn separates(style: PathStyle, c: char) -> bool {
    c == '/' || style == PathStyle::Windows && c == '\\'
}

/// Whether a character separates the parts of a path.
fn is_separator(style: PathStyle, c: char) -> (yes: bool)
    ensures
        yes == separates(style, c),
{
    c == '/' || style == PathStyle::Windows && c == '\\'
}

// ---------------------------------------------------------------------------
// What precedes a path on Windows
// ---------------------------------------------------------------------------

/// Whether a path begins with a drive, such as `C:`.
pub open spec fn drive(path: Seq<char>) -> bool {
    &&& path.len() >= 2
    &&& 'a' <= path[0] <= 'z' || 'A' <= path[0] <= 'Z'
    &&& path[1] == ':'
}

/// The number of characters before the first separator.
pub open spec fn before_separator(s: Seq<char>) -> nat
    decreases s.len(),
{
    if s.len() == 0 || separates(PathStyle::Windows, s[0]) {
        0
    } else {
        1 + before_separator(s.drop_first())
    }
}

/// Whether the text behind two separators is the name of a server, a separator, and the name of a
/// share, whatever follows it.
pub open spec fn names_share(s: Seq<char>) -> bool {
    let n = before_separator(s) as int;
    n > 0 && n < s.len() && before_separator(s.skip(n + 1)) > 0
}

/// Whether a path begins with two separators and then with `\\?\`, with `\\.\`, or with a server
/// and a share. Such a path has no drive of its own, and starts at a root.
pub open spec fn remote(path: Seq<char>) -> bool {
    &&& path.len() >= 2
    &&& separates(PathStyle::Windows, path[0])
    &&& separates(PathStyle::Windows, path[1])
    &&& {
        ||| path.len() >= 4 && path[0] == '\\' && path[1] == '\\' && path[2] == '?' && path[3]
            == '\\'
        ||| path.len() >= 4 && path[2] == '.' && separates(PathStyle::Windows, path[3])
        ||| names_share(path.skip(2))
    }
}

/// Whether a path starts at a root that does not hang on anything else: at the root on Unix, at
/// the root of a drive or of a share, or the like, on Windows.
pub open spec fn absolute(style: PathStyle, path: Seq<char>) -> bool {
    match style {
        PathStyle::Unix => path.len() > 0 && path[0] == '/',
        PathStyle::Windows => {
            ||| remote(path)
            ||| drive(path) && path.len() >= 3 && separates(PathStyle::Windows, path[2])
        },
    }
}

fn count_before_separator(chars: &Vec<char>, from: usize) -> (n: usize)
    requires
        from <= chars@.len(),
    ensures
        n == before_separator(chars@.skip(from as int)),
        from + n <= chars@.len(),
{
    let mut i: usize = from;
    proof {
        assert(0 + before_separator(chars@.skip(from as int)) == before_separator(
            chars@.skip(from as int),
        ));
    }
    while i < chars.len() && !is_separator(PathStyle::Windows, chars[i])
        invariant
            from <= i <= chars@.len(),
            i - from + before_separator(chars@.skip(i as int)) == before_separator(
                chars@.skip(from as int),
            ),
        decreases chars@.len() - i,
    {
        proof {
            assert(chars@.skip(i as int).drop_first() =~= chars@.skip(i + 1));
            assert(chars@.skip(i as int)[0] == chars@[i as int]);
        }
        i = i + 1;
    }
    proof {
        if i < chars@.len() {
            assert(chars@.skip(i as int)[0] == chars@[i as int]);
        }
    }
    i - from
}

fn has_drive(chars: &Vec<char>) -> (yes: bool)
    ensures
        yes == drive(chars@),
{
    chars.len() >= 2 && ('a' <= chars[0] && chars[0] <= 'z' || 'A' <= chars[0] && chars[0] <= 'Z')
        && chars[1] == ':'
}

fn is_remote(chars: &Vec<char>) -> (yes: bool)
    ensures
        yes == remote(chars@),
{
    if chars.len() < 2 || !is_separator(PathStyle::Windows, chars[0]) || !is_separator(
        PathStyle::Windows,
        chars[1],
    ) {
        return false;
    }
    if chars.len() >= 4 && chars[0] == '\\' && chars[1] == '\\' && chars[2] == '?' && chars[3]
        == '\\' {
        return true;
    }
    if chars.len() >= 4 && chars[2] == '.' && is_separator(PathStyle::Windows, chars[3]) {
        return true;
    }
    let n = count_before_separator(chars, 2);
    if n == 0 || 2 + n == chars.len() {
        return false;
    }
    proof {
        assert(chars@.skip(2).skip(n + 1) =~= chars@.skip(n + 3));
    }
    count_before_separator(chars, n + 3) > 0
}

/// Whether a path is absolute.
pub fn is_absolute(path: &str, style: PathStyle) -> (yes: bool)
    ensures
        yes == absolute(style, path@),
{
    let chars = text::to_chars(path);
    match style {
        PathStyle::Unix => chars.len() > 0 && chars[0] == '/',
        PathStyle::Windows => is_remote(&chars) || has_drive(&chars) && chars.len() >= 3
            && is_separator(style, chars[2]),
    }
}

// ---------------------------------------------------------------------------
// Components
// ---------------------------------------------------------------------------

/// What a piece of a path between separators stands for.
pub enum PathPartView {
    /// A `.` at the very start of a path.
    Current,
    /// A `..`.
    Parent,
    /// The name of a file or directory.
    Name(Seq<char>),
}

/// What a piece of a path between separators stands for. Repeated separators stand for nothing,
/// nor does a `.` anywhere but at the very start.
pub open spec fn part_of(piece: Seq<char>, first: bool) -> Option<PathPartView> {
    if piece.len() == 0 {
        None
    } else if piece == seq!['.'] {
        if first {
            Some(PathPartView::Current)
        } else {
            None
        }
    } else if piece == seq!['.', '.'] {
        Some(PathPartView::Parent)
    } else {
        Some(PathPartView::Name(piece))
    }
}

/// What the pieces of a path between separators stand for.
pub open spec fn parts_of_pieces(pieces: Seq<Seq<char>>) -> Seq<PathPartView>
    decreases pieces.len(),
{
    if pieces.len() == 0 {
        Seq::empty()
    } else {
        let before = parts_of_pieces(pieces.drop_last());
        match part_of(pieces.last(), pieces.len() == 1) {
            Some(part) => before.push(part),
            None => before,
        }
    }
}

/// A text with every backslash turned into a slash.
pub open spec fn with_slashes(path: Seq<char>) -> Seq<char> {
    Seq::new(
        path.len(),
        |i: int|
            if path[i] == '\\' {
                '/'
            } else {
                path[i]
            },
    )
}

/// A text with every backslash turned into a slash.
pub fn to_slashes(path: &str) -> (r: String)
    ensures
        r@ == with_slashes(path@),
{
    let chars = text::to_chars(path);
    let mut r: String = String::new();
    let mut i: usize = 0;
    while i < chars.len()
        invariant
            i <= chars@.len(),
            chars@ == path@,
            r@ == with_slashes(path@).take(i as int),
        decreases chars@.len() - i,
    {
        if chars[i] == '\\' {
            r.push('/');
        } else {
            r.push(chars[i]);
        }
        proof {
            let all = with_slashes(path@);
            assert(all.take(i + 1) =~= all.take(i as int).push(all[i as int]));
        }
        i = i + 1;
    }
    proof {
        assert(with_slashes(path@).take(i as int) =~= with_slashes(path@));
    }
    r
}

/// The pieces of a path between separators.
pub open spec fn path_pieces(style: PathStyle, path: Seq<char>) -> Seq<Seq<char>> {
    match style {
        PathStyle::Unix => text::pieces_of(path, '/'),
        PathStyle::Windows => text::pieces_of(with_slashes(path), '/'),
    }
}

/// Whether something precedes the names of a path: a root, or a drive or the like.
pub open spec fn anchored(style: PathStyle, path: Seq<char>) -> bool {
    ||| path.len() > 0 && separates(style, path[0])
    ||| style == PathStyle::Windows && drive(path)
}

/// The name that a path consists of, where it is one name alone.
pub open spec fn lone_name(style: PathStyle, path: Seq<char>) -> Option<Seq<char>> {
    let parts = parts_of_pieces(path_pieces(style, path));
    if !anchored(style, path) && parts.len() == 1 && parts[0] is Name {
        Some(parts[0]->Name_0)
    } else {
        None
    }
}

/// The name that a path consists of, where it is one name alone.
pub fn single_name(path: &str, style: PathStyle) -> (name: Option<String>)
    ensures
        text::optional_text(name) == lone_name(style, path@),
{
    let chars = text::to_chars(path);
    if chars.len() > 0 && is_separator(style, chars[0]) {
        return None;
    }
    if style == PathStyle::Windows && has_drive(&chars) {
        return None;
    }
    let pieces = match style {
        PathStyle::Unix => text::split(path, '/'),
        PathStyle::Windows => text::split(to_slashes(path).as_str(), '/'),
    };
    let ghost all = text::texts(pieces@);
    let mut count: usize = 0;
    let mut found: Option<String> = None;
    let mut i: usize = 0;
    while i < pieces.len()
        invariant
            i <= pieces@.len(),
            count <= i,
            all == text::texts(pieces@),
            all == path_pieces(style, path@),
            count == parts_of_pieces(all.take(i as int)).len(),
            count == 1 ==> match parts_of_pieces(all.take(i as int))[0] {
                PathPartView::Name(name) => found is Some && found->0@ == name,
                _ => found is None,
            },
        decreases pieces@.len() - i,
    {
        proof {
            reveal_strlit(".");
            reveal_strlit("..");
            assert("."@ =~= seq!['.']);
            assert(".."@ =~= seq!['.', '.']);
            let next = all.take(i + 1);
            assert(next.drop_last() =~= all.take(i as int));
            assert(next.last() == pieces@[i as int]@);
        }
        let piece = pieces[i].as_str();
        if piece.is_empty() || (i > 0 && text::text_eq(piece, ".")) {
        } else {
            if text::text_eq(piece, ".") || text::text_eq(piece, "..") {
                found = None;
            } else {
                found = Some(piece.to_owned());
            }
            count = count + 1;
        }
        i = i + 1;
    }
    proof {
        assert(all.take(i as int) =~= all);
    }
    if count == 1 {
        found
    } else {
        None
    }
}

// ---------------------------------------------------------------------------
// Names
// ---------------------------------------------------------------------------

/// The index behind the last dot of `s`, or 0 where it has none.
pub open spec fn behind_last_dot(s: Seq<char>) -> nat
    decreases s.len(),
{
    if s.len() == 0 {
        0
    } else if s.last() == '.' {
        s.len()
    } else {
        behind_last_dot(s.drop_last())
    }
}

/// What stands behind the last dot of a file name; nothing where it has no dot, or only one
/// at its start.
pub open spec fn extension_of(name: Seq<char>) -> Option<Seq<char>> {
    let n = behind_last_dot(name) as int;
    if n <= 1 {
        None
    } else {
        Some(name.skip(n))
    }
}

/// What stands behind the last dot of a file name.
pub fn extension(name: &str) -> (ext: Option<String>)
    ensures
        text::optional_text(ext) == extension_of(name@),
{
    let chars = text::to_chars(name);
    let mut n: usize = chars.len();
    proof {
        assert(chars@.take(n as int) =~= name@);
    }
    while n > 0 && chars[n - 1] != '.'
        invariant
            n <= chars@.len(),
            behind_last_dot(chars@.take(n as int)) == behind_last_dot(name@),
        decreases n,
    {
        proof {
            assert(chars@.take(n as int).drop_last() =~= chars@.take(n - 1));
        }
        n = n - 1;
    }
    if n <= 1 {
        None
    } else {
        proof {
            assert(name@.skip(n as int) =~= chars@.subrange(n as int, chars@.len() as int));
        }
        Some(text::from_chars(&chars, n, chars.len()))
    }
}

// ---------------------------------------------------------------------------
// Laws
// ---------------------------------------------------------------------------

/// Whether a text is a name by itself.
pub open spec fn plain_name(style: PathStyle, name: Seq<char>) -> bool {
    &&& name.len() > 0
    &&& name != seq!['.']
    &&& name != seq!['.', '.']
    &&& forall|i: int| 0 <= i < name.len() ==> !separates(style, #[trigger] name[i])
}

proof fn lemma_pieces_hold_no_separator(style: PathStyle, path: Seq<char>, k: int)
    requires
        0 <= k < path_pieces(style, path).len(),
    ensures
        forall|j: int|
            0 <= j < path_pieces(style, path)[k].len() ==> !separates(
                style,
                #[trigger] path_pieces(style, path)[k][j],
            ),
{
    let source = match style {
        PathStyle::Unix => path,
        PathStyle::Windows => with_slashes(path),
    };
    let pieces = path_pieces(style, path);
    text::lemma_pieces_hold_no_mark(source, '/');
    if style == PathStyle::Windows {
        assert forall|i: int| 0 <= i < source.len() implies #[trigger] source[i] != '\\' by {}
        text::lemma_pieces_hold_what_was_there(source, '/', '\\');
    }
}

proof fn lemma_name_is_a_piece(pieces: Seq<Seq<char>>, i: int) -> (k: int)
    requires
        0 <= i < parts_of_pieces(pieces).len(),
        parts_of_pieces(pieces)[i] is Name,
    ensures
        0 <= k < pieces.len(),
        parts_of_pieces(pieces)[i]->Name_0 == pieces[k],
        pieces[k].len() > 0,
        pieces[k] != seq!['.'],
        pieces[k] != seq!['.', '.'],
    decreases pieces.len(),
{
    if pieces.len() == 0 {
        0
    } else if i < parts_of_pieces(pieces.drop_last()).len() {
        lemma_name_is_a_piece(pieces.drop_last(), i)
    } else {
        pieces.len() - 1
    }
}

/// A path that is one name alone is not absolute, and the name has no separator, nor does it lead
/// to the directory itself or to the one above.
pub proof fn law_lone_name_is_plain(style: PathStyle, path: Seq<char>)
    requires
        lone_name(style, path) is Some,
    ensures
        plain_name(style, lone_name(style, path)->0),
        !absolute(style, path),
{
    let pieces = path_pieces(style, path);
    let k = lemma_name_is_a_piece(pieces, 0);
    lemma_pieces_hold_no_separator(style, path, k);
}

/// A name by itself, without a drive before it, is the one name of its path.
pub proof fn law_plain_name_is_alone(style: PathStyle, name: Seq<char>)
    requires
        plain_name(style, name),
        style == PathStyle::Windows ==> !drive(name),
    ensures
        lone_name(style, name) == Some(name),
{
    assert(!separates(style, name[0]));
    if style == PathStyle::Windows {
        assert forall|i: int| 0 <= i < name.len() implies with_slashes(name)[i] == name[i] by {
            assert(!separates(style, name[i]));
        }
        assert(with_slashes(name) =~= name);
    }
    assert forall|i: int| 0 <= i < name.len() implies #[trigger] name[i] != '/' by {
        assert(!separates(style, name[i]));
    }
    text::lemma_pieces_plain(name, '/');
    assert(seq![name].drop_last() =~= Seq::empty());
    assert(parts_of_pieces(seq![name]) =~= seq![PathPartView::Name(name)]) by {
        reveal_with_fuel(parts_of_pieces, 2);
    }
}

proof fn lemma_last_dot(s: Seq<char>)
    ensures
        behind_last_dot(s) <= s.len(),
        behind_last_dot(s) > 0 ==> s[behind_last_dot(s) - 1] == '.',
        forall|i: int| behind_last_dot(s) <= i < s.len() ==> #[trigger] s[i] != '.',
    decreases s.len(),
{
    if s.len() > 0 && s.last() != '.' {
        let rest = s.drop_last();
        lemma_last_dot(rest);
        assert forall|i: int| behind_last_dot(s) <= i < s.len() implies #[trigger] s[i] != '.' by {
            if i < rest.len() {
                assert(rest[i] == s[i]);
            }
        }
    }
}

/// A name has an extension exactly where it is something, a dot, and the extension, in which there
/// is no dot.
pub proof fn law_extension(name: Seq<char>)
    ensures
        forall|stem: Seq<char>, ext: Seq<char>|
            stem.len() > 0 && name == #[trigger] (stem + seq!['.'] + ext) && !ext.contains('.')
                ==> extension_of(name) == Some(ext),
        extension_of(name) is Some ==> {
            let ext = extension_of(name)->0;
            &&& ext.len() + 1 < name.len()
            &&& name == name.take(name.len() - ext.len() - 1) + seq!['.'] + ext
            &&& !ext.contains('.')
        },
{
    lemma_last_dot(name);
    let n = behind_last_dot(name) as int;
    assert forall|stem: Seq<char>, ext: Seq<char>|
        stem.len() > 0 && name == #[trigger] (stem + seq!['.'] + ext) && !ext.contains(
            '.',
        ) implies extension_of(name) == Some(ext) by {
        let k = stem.len() as int;
        assert(name[k] == '.');
        assert(n > k);
        if n > k + 1 {
            assert(name[n - 1] == ext[n - 1 - k - 1]);
        }
        assert(name.skip(n) =~= ext);
    }
    if n > 1 {
        let ext = name.skip(n);
        assert(name =~= name.take(n - 1) + seq!['.'] + ext);
        if ext.contains('.') {
            let i = choose|i: int| 0 <= i < ext.len() && ext[i] == '.';
            assert(name[n + i] == '.');
        }
    }
}

/// Turning backslashes into slashes changes nothing else.
pub proof fn law_slashes(path: &str, r: String)
    requires
        call_ensures(to_slashes, (path,), r),
    ensures
        r@.len() == path@.len(),
        forall|i: int|
            0 <= i < path@.len() ==> if #[trigger] path@[i] == '\\' {
                r@[i] == '/'
            } else {
                r@[i] == path@[i]
            },
{
}

/// A path that is one name alone begins with the name, and behind it stand nothing but separators
/// and single dots between them.
pub proof fn law_lone_name_begins_the_path(path: &str, style: PathStyle, name: Option<String>)
    requires
        call_ensures(single_name, (path, style), name),
        name is Some,
    ensures
        name->0@.is_prefix_of(path@),
        forall|i: int|
            name->0@.len() <= i < path@.len() ==> separates(style, #[trigger] path@[i]) || path@[i]
                == '.',
        name->0@.len() < path@.len() ==> separates(style, path@[name->0@.len() as int]),
        plain_name(style, name->0@),
{
    law_lone_name_is_plain(style, path@);
    lemma_lone_name_first(style, path@);
}

proof fn lemma_lone_name_first(style: PathStyle, path: Seq<char>)
    requires
        lone_name(style, path) is Some,
    ensures
        ({
            let name = lone_name(style, path)->0;
            &&& name.is_prefix_of(path)
            &&& forall|i: int|
                name.len() <= i < path.len() ==> separates(style, #[trigger] path[i]) || path[i]
                    == '.'
            &&& name.len() < path.len() ==> separates(style, path[name.len() as int])
        }),
{
    let source = match style {
        PathStyle::Unix => path,
        PathStyle::Windows => with_slashes(path),
    };
    let pieces = path_pieces(style, path);
    let name = lone_name(style, path)->0;
    law_lone_name_is_plain(style, path);
    text::lemma_pieces_nonempty(source, '/');
    text::law_joined_pieces(source, '/');
    text::lemma_pieces_hold_no_mark(source, '/');
    let first = pieces[0];
    let rest = pieces.skip(1);
    assert(pieces =~= seq![first] + rest);
    text::lemma_joined_front(first, rest, seq!['/']);
    let behind = text::joined(rest, seq!['/']);
    if first.len() == 0 {
        if rest.len() > 0 {
            assert(source[0] == '/');
            assert(separates(style, path[0]));
        } else {
            assert(parts_of_pieces(pieces).len() == 0) by {
                assert(pieces.drop_last() =~= Seq::empty());
                reveal_with_fuel(parts_of_pieces, 2);
            }
        }
    }
    lemma_first_part(pieces);
    assert(first == name);
    lemma_only_dots_behind(pieces);
    assert forall|i: int| name.len() <= i < source.len() implies #[trigger] source[i] == '/'
        || source[i] == '.' by {
        if rest.len() > 0 && i > name.len() {
            lemma_dots_joined(rest);
            assert(source[i] == behind[i - name.len() - 1]);
        }
    }
    assert forall|i: int| name.len() <= i < path.len() implies separates(style, #[trigger] path[i])
        || path[i] == '.' by {
        assert(source[i] == '/' || source[i] == '.');
    }
    if name.len() < path.len() {
        assert(source[name.len() as int] == '/');
    }
    assert(name =~= path.subrange(0, name.len() as int)) by {
        assert forall|i: int| 0 <= i < name.len() implies name[i] == path[i] by {
            assert(source[i] == name[i]);
            assert(!separates(style, name[i]));
        }
    }
}

/// A first piece that is not empty is the first part.
proof fn lemma_first_part(pieces: Seq<Seq<char>>)
    requires
        pieces.len() > 0,
        pieces[0].len() > 0,
    ensures
        parts_of_pieces(pieces).len() > 0,
        part_of(pieces[0], true) == Some(parts_of_pieces(pieces)[0]),
    decreases pieces.len(),
{
    if pieces.len() == 1 {
        assert(pieces.drop_last() =~= Seq::empty());
        reveal_with_fuel(parts_of_pieces, 2);
    } else {
        lemma_first_part(pieces.drop_last());
    }
}

/// Behind a first piece that is a part, pieces that add no part are empty or a dot.
proof fn lemma_only_dots_behind(pieces: Seq<Seq<char>>)
    requires
        pieces.len() > 0,
        pieces[0].len() > 0,
        parts_of_pieces(pieces).len() == 1,
    ensures
        forall|k: int|
            1 <= k < pieces.len() ==> (#[trigger] pieces[k]).len() == 0 || pieces[k] == seq!['.'],
    decreases pieces.len(),
{
    if pieces.len() > 1 {
        let before = pieces.drop_last();
        lemma_first_part(before);
        lemma_only_dots_behind(before);
        assert forall|k: int| 1 <= k < pieces.len() implies (#[trigger] pieces[k]).len() == 0
            || pieces[k] == seq!['.'] by {
            if k < before.len() {
                assert(before[k] == pieces[k]);
            }
        }
    }
}

proof fn lemma_dots_joined(pieces: Seq<Seq<char>>)
    requires
        forall|k: int|
            0 <= k < pieces.len() ==> (#[trigger] pieces[k]).len() == 0 || pieces[k] == seq!['.'],
    ensures
        forall|i: int|
            0 <= i < text::joined(pieces, seq!['/']).len() ==> #[trigger] text::joined(
                pieces,
                seq!['/'],
            )[i] == '/' || text::joined(pieces, seq!['/'])[i] == '.',
    decreases pieces.len(),
{
    let whole = text::joined(pieces, seq!['/']);
    if pieces.len() > 0 {
        let before = pieces.drop_last();
        assert forall|k: int| 0 <= k < before.len() implies (#[trigger] before[k]).len() == 0
            || before[k] == seq!['.'] by {
            assert(before[k] == pieces[k]);
        }
        lemma_dots_joined(before);
        let last = pieces[pieces.len() - 1];
        let front = text::joined(before, seq!['/']);
        assert(last.len() == 0 || last == seq!['.']);
        assert forall|i: int| 0 <= i < whole.len() implies #[trigger] whole[i] == '/' || whole[i]
            == '.' by {
            if pieces.len() > 1 && i < front.len() {
                assert(whole[i] == front[i]);
            }
        }
    }
}

/// Separators behind a name do not matter.
pub proof fn law_separators_behind_do_not_matter(style: PathStyle, name: Seq<char>, c: char)
    requires
        plain_name(style, name),
        style == PathStyle::Windows ==> !drive(name),
        separates(style, c),
    ensures
        lone_name(style, name.push(c)) == Some(name),
{
    law_plain_name_is_alone(style, name);
    let path = name.push(c);
    assert(!separates(style, name[0]));
    assert(path[0] == name[0]);
    let source = match style {
        PathStyle::Unix => path,
        PathStyle::Windows => with_slashes(path),
    };
    assert(source =~= name.push('/')) by {
        assert forall|i: int| 0 <= i < name.len() implies source[i] == name[i] by {
            assert(!separates(style, name[i]));
        }
    }
    assert forall|i: int| 0 <= i < name.len() implies #[trigger] name[i] != '/' by {
        assert(!separates(style, name[i]));
    }
    text::lemma_pieces_plain(name, '/');
    assert(source.drop_last() =~= name);
    let pieces = path_pieces(style, path);
    assert(pieces =~= seq![name, Seq::empty()]);
    assert(pieces.drop_last() =~= seq![name]);
    assert(seq![name].drop_last() =~= Seq::empty());
    reveal_with_fuel(parts_of_pieces, 3);
    assert(parts_of_pieces(pieces) =~= seq![PathPartView::Name(name)]);
    if style == PathStyle::Windows && drive(path) {
        assert(path[1] == ':');
        if name.len() > 1 {
            assert(name[1] == path[1]);
        }
    }
}

/// On Unix a path is absolute exactly where it begins with a slash.
pub proof fn law_absolute_on_unix(path: &str, yes: bool)
    requires
        call_ensures(is_absolute, (path, PathStyle::Unix), yes),
    ensures
        yes <==> path@.len() > 0 && path@[0] == '/',
{
}

/// On Windows a path that begins with a drive is absolute exactly where a separator follows it, and
/// one that begins with no drive only where it begins with two separators.
pub proof fn law_absolute_on_windows(path: &str, yes: bool)
    requires
        call_ensures(is_absolute, (path, PathStyle::Windows), yes),
    ensures
        path@.len() < 3 ==> !yes,
        path@.len() >= 3 && path@[1] == ':' && ('a' <= path@[0] <= 'z' || 'A' <= path@[0] <= 'Z')
            ==> (yes <==> path@[2] == '/' || path@[2] == '\\'),
        yes && !(path@[0] == '/' || path@[0] == '\\') ==> path@[1] == ':',
        yes && (path@[0] == '/' || path@[0] == '\\') ==> path@[1] == '/' || path@[1] == '\\',
{
}

proof fn lemma_before_separator(name: Seq<char>, rest: Seq<char>)
    requires
        forall|i: int|
            0 <= i < name.len() ==> !separates(PathStyle::Windows, #[trigger] name[i]),
        rest.len() == 0 || separates(PathStyle::Windows, rest[0]),
    ensures
        before_separator(name + rest) == name.len(),
    decreases name.len(),
{
    let all = name + rest;
    if name.len() == 0 {
        assert(all =~= rest);
    } else {
        let later = name.drop_first();
        assert(!separates(PathStyle::Windows, name[0]));
        assert(all[0] == name[0]);
        assert forall|i: int| 0 <= i < later.len() implies !separates(
            PathStyle::Windows,
            #[trigger] later[i],
        ) by {
            assert(later[i] == name[i + 1]);
        }
        lemma_before_separator(later, rest);
        assert(all.drop_first() =~= later + rest);
    }
}

/// On Windows a path that begins with two separators, the name of a server, a separator and the name
/// of a share is absolute, whatever follows; one that ends behind the name of the server is not,
/// where that is no `.` or `?`.
pub proof fn law_shares_are_absolute(
    a: char,
    b: char,
    server: Seq<char>,
    c: char,
    share: Seq<char>,
    rest: Seq<char>,
)
    requires
        separates(PathStyle::Windows, a),
        separates(PathStyle::Windows, b),
        separates(PathStyle::Windows, c),
        server.len() > 0,
        forall|i: int|
            0 <= i < server.len() ==> !separates(PathStyle::Windows, #[trigger] server[i]),
        forall|i: int|
            0 <= i < share.len() ==> !separates(PathStyle::Windows, #[trigger] share[i]),
        rest.len() == 0 || separates(PathStyle::Windows, rest[0]),
    ensures
        share.len() > 0 ==> absolute(
            PathStyle::Windows,
            seq![a, b] + server + seq![c] + share + rest,
        ),
        server != seq!['.'] && server != seq!['?'] ==> !absolute(
            PathStyle::Windows,
            seq![a, b] + server,
        ) && !absolute(PathStyle::Windows, seq![a, b] + server + seq![c]),
{
    let path = seq![a, b] + server + seq![c] + share + rest;
    let behind = server + (seq![c] + share + rest);
    lemma_before_separator(server, seq![c] + share + rest);
    lemma_before_separator(share, rest);
    assert(path.skip(2) =~= behind);
    let n = server.len() as int;
    assert(behind.skip(n + 1) =~= share + rest);
    assert(path[0] == a && path[1] == b);
    let bare = seq![a, b] + server;
    let ended = bare + seq![c];
    assert(bare.skip(2) =~= server + Seq::<char>::empty());
    lemma_before_separator(server, Seq::empty());
    assert(ended.skip(2) =~= server + seq![c]);
    lemma_before_separator(server, seq![c]);
    assert((server + seq![c]).skip(n + 1) =~= Seq::empty());
    assert(bare[0] == a && bare[1] == b && ended[0] == a && ended[1] == b);
    assert(forall|i: int| 0 <= i < n ==> bare[i + 2] == #[trigger] server[i]);
    assert(forall|i: int| 0 <= i < n ==> ended[i + 2] == #[trigger] server[i]);
    if n == 1 {
        assert(server =~= seq![server[0]]);
        assert(ended[2] == server[0]);
    } else {
        assert(!separates(PathStyle::Windows, server[1]));
        assert(bare[3] == server[1] && ended[3] == server[1]);
    }
}

proof fn lemma_piece_behind(s: Seq<char>, piece: Seq<char>)
    requires
        !piece.contains('/'),
    ensures
        text::pieces_of(s.push('/') + piece, '/') == text::pieces_of(s, '/').push(piece),
    decreases piece.len(),
{
    let whole = s.push('/') + piece;
    if piece.len() == 0 {
        assert(piece =~= Seq::empty());
        assert(whole =~= s.push('/'));
        assert(whole.drop_last() =~= s);
    } else {
        let front = piece.drop_last();
        assert forall|i: int| 0 <= i < front.len() implies #[trigger] front[i] != '/' by {
            assert(front[i] == piece[i]);
            assert(piece.contains(piece[i]));
        }
        lemma_piece_behind(s, front);
        assert(piece.contains(piece.last()));
        assert(whole.drop_last() =~= s.push('/') + front);
        assert(whole.last() == piece.last());
        let before = text::pieces_of(s, '/').push(front);
        assert(before.drop_last() =~= text::pieces_of(s, '/'));
        assert(front.push(piece.last()) =~= piece);
    }
}

/// A path that is one name alone stays that name where a separator is put behind it, or a separator
/// and a dot, and stops being one name where anything else follows the separator.
pub proof fn law_what_stands_behind_a_lone_name(
    path: &str,
    name: Option<String>,
    c: char,
    piece: Seq<char>,
    longer: &str,
    then_name: Option<String>,
    style: PathStyle,
)
    requires
        call_ensures(single_name, (path, style), name),
        call_ensures(single_name, (longer, style), then_name),
        name is Some,
        separates(style, c),
        forall|i: int| 0 <= i < piece.len() ==> !separates(style, #[trigger] piece[i]),
        longer@ == path@.push(c) + piece,
    ensures
        then_name is Some <==> piece.len() == 0 || piece == seq!['.'],
        then_name is Some ==> then_name->0@ == name->0@,
{
    let source = match style {
        PathStyle::Unix => path@,
        PathStyle::Windows => with_slashes(path@),
    };
    let longer_source = match style {
        PathStyle::Unix => longer@,
        PathStyle::Windows => with_slashes(longer@),
    };
    let n = path@.len() as int;
    assert(longer_source =~= source.push('/') + piece) by {
        assert forall|i: int| 0 <= i < longer@.len() implies #[trigger] longer_source[i] == (
        source.push('/') + piece)[i] by {
            if i > n {
                assert(longer@[i] == piece[i - n - 1]);
                assert(!separates(style, piece[i - n - 1]));
            } else if i < n {
                assert(longer@[i] == path@[i]);
            } else {
                assert(longer@[i] == c);
            }
        }
    }
    assert forall|i: int| 0 <= i < piece.len() implies #[trigger] piece[i] != '/' by {
        assert(!separates(style, piece[i]));
    }
    lemma_piece_behind(source, piece);
    let pieces = path_pieces(style, path@);
    assert(path_pieces(style, longer@) == pieces.push(piece));
    assert(pieces.push(piece).drop_last() =~= pieces);
    text::lemma_pieces_nonempty(source, '/');
    if n == 0 {
        assert(source =~= Seq::empty());
        assert(pieces.drop_last() =~= Seq::empty());
        reveal_with_fuel(parts_of_pieces, 2);
    }
    assert(longer@[0] == path@[0]);
    if n > 1 {
        assert(longer@[1] == path@[1]);
    } else {
        assert(longer@[1] == c);
    }
}

/// On Windows a path that begins with `\\?\` is absolute, and so is one that begins with two
/// separators, a dot and a separator. One that begins with three separators is not.
pub proof fn law_devices_are_absolute(path: &str, yes: bool)
    requires
        call_ensures(is_absolute, (path, PathStyle::Windows), yes),
        path@.len() >= 2,
        path@[0] == '/' || path@[0] == '\\',
        path@[1] == '/' || path@[1] == '\\',
    ensures
        seq!['\\', '\\', '?', '\\'].is_prefix_of(path@) ==> yes,
        path@.len() >= 4 && path@[2] == '.' && (path@[3] == '/' || path@[3] == '\\') ==> yes,
        path@.len() >= 3 && (path@[2] == '/' || path@[2] == '\\') ==> !yes,
{
    let device = seq!['\\', '\\', '?', '\\'];
    if device.is_prefix_of(path@) {
        assert(path@[0] == device[0]);
        assert(path@[1] == device[1]);
        assert(path@[2] == device[2]);
        assert(path@[3] == device[3]);
    }
    if path@.len() >= 3 {
        assert(path@.skip(2)[0] == path@[2]);
    }
}

} // verus!
