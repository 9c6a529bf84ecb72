//! Working with text one character at a time.
use vstd::prelude::*;
use vstd::string::*;
use vstd::utf8::is_ascii_chars;

verus! {

/// `String::push` appends one character to the end of the string.
pub assume_specification[ String::push ](s: &mut String, ch: char)
    ensures
        final(s)@ == old(s)@.push(ch),
;

/// `String::hash`, which feeds the text to a hasher. Nothing is claimed of what
/// the hasher makes of it.
pub assume_specification<H: std::hash::Hasher>[ <String as std::hash::Hash>::hash::<H> ](
    s: &String,
    state: &mut H,
);

/// The characters of a string, in order.
pub fn to_chars(s: &str) -> (chars: Vec<char>)
    ensures
        chars@ == s@,
{
    let mut chars: Vec<char> = Vec::new();
    for c in it: s.chars()
        invariant
            chars@ == it.seq().take(it.index() as int),
            it.seq() == s@,
    {
        chars.push(c);
    }
    assert(s@.take(s@.len() as int) == s@);
    chars
}

/// The string made of the given characters.
pub fn from_chars(chars: &Vec<char>) -> (s: String)
    ensures
        s@ == chars@,
{
    let mut s = String::new();
    for i in 0..chars.len()
        invariant
            s@ == chars@.take(i as int),
    {
        s.push(chars[i]);
        assert(chars@.take(i as int).push(chars@[i as int]) == chars@.take(i + 1));
    }
    assert(chars@.take(chars@.len() as int) == chars@);
    s
}

/// Whether two strings hold the same characters.
pub fn same_text(a: &str, b: &str) -> (same: bool)
    ensures
        same == (a@ == b@),
{
    let a = to_chars(a);
    let b = to_chars(b);
    same_chars(&a, &b)
}

/// Whether two character lists are equal.
pub fn same_chars(a: &Vec<char>, b: &Vec<char>) -> (same: bool)
    ensures
        same == (a@ == b@),
{
    if a.len() != b.len() {
        return false;
    }
    for i in 0..a.len()
        invariant
            a.len() == b.len(),
            forall|k: int| 0 <= k < i ==> a@[k] == b@[k],
    {
        if a[i] != b[i] {
            return false;
        }
    }
    assert(a@ =~= b@);
    true
}

/// The characters of `s` from `from` up to, not including, `to`.
pub fn slice_chars(s: &Vec<char>, from: usize, to: usize) -> (part: Vec<char>)
    requires
        from <= to <= s.len(),
    ensures
        part@ == s@.subrange(from as int, to as int),
{
    let mut part: Vec<char> = Vec::new();
    for i in from..to
        invariant
            from <= to <= s.len(),
            part@ == s@.subrange(from as int, i as int),
    {
        part.push(s[i]);
        assert(s@.subrange(from as int, i as int).push(s@[i as int]) =~= s@.subrange(
            from as int,
            i + 1,
        ));
    }
    part
}

// ─── Letter case ─────────────────────────────────────────────────────────────

/// What `str::to_lowercase` makes of a text.
pub uninterp spec fn lowercase_of(s: Seq<char>) -> Seq<char>;

/// `str::to_lowercase`: the text in lower case by the rules of Unicode, for
/// which `lowercase_of` stands. Of a text of ASCII characters it is claimed that
/// each of `A` to `Z` becomes its small letter and everything else stays.
#[verifier::external_body]
pub(crate) fn to_lowercase(s: &str) -> (out: String)
    ensures
        out@ == lowercase_of(s@),
        is_ascii_chars(s@) ==> out@ == ascii_lowered(s@),
{
    s.to_lowercase()
}

/// A letter of `A` to `Z` made small; other characters as they are.
pub open spec fn small_letter(c: char) -> char {
    if 'A' <= c <= 'Z' {
        ((c as u8) + 32) as char
    } else {
        c
    }
}

/// A text with the letters `A` to `Z` made small.
pub open spec fn ascii_lowered(s: Seq<char>) -> Seq<char> {
    s.map_values(|c: char| small_letter(c))
}

/// Makes a letter of `A` to `Z` small.
pub fn to_small_letter(c: char) -> (out: char)
    ensures
        out == small_letter(c),
{
    if 'A' <= c && c <= 'Z' {
        ((c as u8) + 32) as char
    } else {
        c
    }
}

// ─── Lists of texts ──────────────────────────────────────────────────────────

/// A copy of a list of texts.
pub fn copy_texts(items: &Vec<String>) -> (out: Vec<String>)
    ensures
        out.deep_view() == items.deep_view(),
{
    let mut out: Vec<String> = Vec::new();
    for i in 0..items.len()
        invariant
            out.deep_view() == items.deep_view().take(i as int),
    {
        let ghost before = out.deep_view();
        out.push(items[i].clone());
        assert(out.deep_view() =~= before.push(items@[i as int]@));
        assert(items.deep_view().take(i + 1) =~= before.push(items@[i as int]@));
    }
    assert(items.deep_view().take(items.len() as int) =~= items.deep_view());
    out
}

/// Whether a text is one of a list.
pub fn contains_text(items: &Vec<String>, text: &str) -> (b: bool)
    ensures
        b == items.deep_view().contains(text@),
{
    for i in 0..items.len()
        invariant
            forall|k: int| 0 <= k < i ==> items.deep_view()[k] != text@,
    {
        if same_text(items[i].as_str(), text) {
            assert(items.deep_view()[i as int] == text@);
            return true;
        }
    }
    false
}

// ─── Trimming and splitting ──────────────────────────────────────────────────

/// The characters with the Unicode property `White_Space`.
pub open spec fn white_space(c: char) -> bool {
    let n = c as u32;
    ||| 0x09 <= n <= 0x0d
    ||| n == 0x20
    ||| n == 0x85
    ||| n == 0xa0
    ||| n == 0x1680
    ||| 0x2000 <= n <= 0x200a
    ||| n == 0x2028
    ||| n == 0x2029
    ||| n == 0x202f
    ||| n == 0x205f
    ||| n == 0x3000
}

/// Whether a character has the Unicode property `White_Space`.
pub fn is_white_space(c: char) -> (b: bool)
    ensures
        b == white_space(c),
{
    let n = c as u32;
    (0x09 <= n && n <= 0x0d) || n == 0x20 || n == 0x85 || n == 0xa0 || n == 0x1680 || (0x2000
        <= n && n <= 0x200a) || n == 0x2028 || n == 0x2029 || n == 0x202f || n == 0x205f || n
        == 0x3000
}

/// `s` without the white space at its end.
pub open spec fn trim_end(s: Seq<char>) -> Seq<char>
    decreases s.len(),
{
    if s.len() > 0 && white_space(s.last()) {
        trim_end(s.drop_last())
    } else {
        s
    }
}

/// `s` without the white space at its start.
pub open spec fn trim_start(s: Seq<char>) -> Seq<char>
    decreases s.len(),
{
    if s.len() > 0 && white_space(s[0]) {
        trim_start(s.drop_first())
    } else {
        s
    }
}

/// `s` without the white space at either end.
pub open spec fn trimmed(s: Seq<char>) -> Seq<char> {
    trim_start(trim_end(s))
}

/// Removes the white space at either end.
pub fn trim(s: &Vec<char>) -> (out: Vec<char>)
    ensures
        out@ == trimmed(s@),
{
    let mut to = s.len();
    assert(s@.take(to as int) =~= s@);
    while to > 0 && is_white_space(s[to - 1])
        invariant
            to <= s.len(),
            trim_end(s@) == trim_end(s@.take(to as int)),
        decreases to,
    {
        assert(s@.take(to as int).drop_last() =~= s@.take(to - 1));
        to -= 1;
    }
    let ghost kept = s@.take(to as int);
    let mut from: usize = 0;
    assert(kept.skip(0) =~= kept);
    while from < to && is_white_space(s[from])
        invariant
            from <= to <= s.len(),
            kept == s@.take(to as int),
            trim_start(kept) == trim_start(kept.skip(from as int)),
        decreases to - from,
    {
        assert(kept.skip(from as int).drop_first() =~= kept.skip(from + 1));
        from += 1;
    }
    assert(kept.skip(from as int) =~= s@.subrange(from as int, to as int));
    slice_chars(s, from, to)
}

/// The parts of `s` between the separators: as many as there are separators,
/// and one more.
pub open spec fn split_on(s: Seq<char>, sep: char) -> Seq<Seq<char>>
    decreases s.len(),
{
    if s.len() == 0 {
        seq![Seq::empty()]
    } else {
        let parts = split_on(s.drop_last(), sep);
        if s.last() == sep {
            parts.push(Seq::empty())
        } else {
            parts.drop_last().push(parts.last().push(s.last()))
        }
    }
}

/// Splits at every separator.
pub fn split(s: &Vec<char>, sep: char) -> (parts: Vec<Vec<char>>)
    ensures
        parts.deep_view() == split_on(s@, sep),
        parts.len() > 0,
{
    let mut parts: Vec<Vec<char>> = Vec::new();
    let mut current: Vec<char> = Vec::new();
    assert(s@.take(0) =~= Seq::empty());
    assert(parts.deep_view().push(current@) =~= split_on(s@.take(0), sep));
    for i in 0..s.len()
        invariant
            parts.deep_view().push(current@) == split_on(s@.take(i as int), sep),
    {
        let ghost before = parts.deep_view();
        let ghost open_part = current@;
        assert(s@.take(i + 1).drop_last() =~= s@.take(i as int));
        assert(before.push(open_part).drop_last() =~= before);
        if s[i] == sep {
            parts.push(current);
            current = Vec::new();
            assert(parts@.last()@ == open_part);
            assert(parts@.last().deep_view() =~= open_part);
            assert(parts.deep_view() =~= before.push(open_part));
            assert(current@ =~= Seq::empty());
        } else {
            current.push(s[i]);
        }
    }
    assert(s@.take(s@.len() as int) =~= s@);
    let ghost before = parts.deep_view();
    let ghost open_part = current@;
    parts.push(current);
    assert(parts@.last().deep_view() =~= open_part);
    assert(parts.deep_view() =~= before.push(open_part));
    parts
}

/// How many characters come before the first `c`; all of them if there is none.
pub open spec fn first_of(s: Seq<char>, c: char) -> nat
    decreases s.len(),
{
    if s.len() == 0 || s[0] == c {
        0
    } else {
        1 + first_of(s.drop_first(), c)
    }
}

/// The place of the first `c`, or the length if there is none.
pub fn find_char(s: &Vec<char>, c: char) -> (at: usize)
    ensures
        at == first_of(s@, c),
        at <= s.len(),
{
    let mut at: usize = 0;
    assert(s@.skip(0) =~= s@);
    while at < s.len() && s[at] != c
        invariant
            at <= s.len(),
            first_of(s@, c) == at + first_of(s@.skip(at as int), c),
        decreases s.len() - at,
    {
        assert(s@.skip(at as int).drop_first() =~= s@.skip(at + 1));
        at += 1;
    }
    at
}

/// Whether `s` starts with `prefix`.
pub open spec fn starts_with(s: Seq<char>, prefix: Seq<char>) -> bool {
    prefix.len() <= s.len() && s.take(prefix.len() as int) == prefix
}

/// Whether `s` starts with `prefix`.
pub fn has_prefix(s: &Vec<char>, prefix: &str) -> (b: bool)
    ensures
        b == starts_with(s@, prefix@),
        b ==> prefix@.len() <= s.len(),
{
    let prefix = to_chars(prefix);
    if prefix.len() > s.len() {
        return false;
    }
    let front = slice_chars(s, 0, prefix.len());
    assert(front@ =~= s@.take(prefix@.len() as int));
    same_chars(&front, &prefix)
}

/// A line without the carriage return that ends it, if one does.
pub open spec fn without_return(line: Seq<char>) -> Seq<char> {
    if line.len() > 0 && line.last() == '\r' {
        line.drop_last()
    } else {
        line
    }
}

/// The lines of a text: each ends at `\n` or `\r\n`, which is not part of it;
/// the last line may lack its ending.
pub open spec fn lines_of(s: Seq<char>) -> Seq<Seq<char>> {
    let parts = split_on(s, '\n');
    let ended = parts.drop_last().map_values(|line: Seq<char>| without_return(line));
    if parts.last().len() == 0 {
        ended
    } else {
        ended.push(parts.last())
    }
}

/// Splits a text into lines.
pub fn lines(s: &Vec<char>) -> (out: Vec<Vec<char>>)
    ensures
        out.deep_view() == lines_of(s@),
{
    let parts = split(s, '\n');
    let n = parts.len();
    let ghost all = parts.deep_view();
    let ghost ended = all.drop_last().map_values(|line: Seq<char>| without_return(line));
    let mut out: Vec<Vec<char>> = Vec::new();
    assert(out.deep_view() =~= ended.take(0));
    for i in 0..n - 1
        invariant
            n == parts.len(),
            n > 0,
            all == parts.deep_view(),
            ended == all.drop_last().map_values(|line: Seq<char>| without_return(line)),
            out.deep_view() == ended.take(i as int),
    {
        let part = &parts[i];
        assert(part@ =~= all[i as int]);
        let mut to = part.len();
        if to > 0 && part[to - 1] == '\r' {
            to -= 1;
        }
        let ghost before = out.deep_view();
        let line = slice_chars(part, 0, to);
        assert(line@ =~= ended[i as int]);
        out.push(line);
        assert(out@.last().deep_view() =~= line@);
        assert(out.deep_view() =~= before.push(ended[i as int]));
        assert(ended.take(i + 1) =~= ended.take(i as int).push(ended[i as int]));
    }
    assert(ended.take(n - 1) =~= ended);
    let last = &parts[n - 1];
    assert(last@ =~= all[n - 1]);
    if last.len() > 0 {
        let ghost before = out.deep_view();
        let line = slice_chars(last, 0, last.len());
        assert(line@ =~= last@);
        out.push(line);
        assert(out@.last().deep_view() =~= line@);
        assert(out.deep_view() =~= before.push(last@));
    }
    out
}

/// The parts one after another, with the separator between neighbours.
pub open spec fn joined(parts: Seq<Seq<char>>, sep: Seq<char>) -> Seq<char>
    decreases parts.len(),
{
    if parts.len() == 0 {
        Seq::empty()
    } else if parts.len() == 1 {
        parts[0]
    } else {
        joined(parts.drop_last(), sep) + sep + parts.last()
    }
}

/// Joins strings with a separator between neighbours.
pub fn join(parts: &Vec<String>, sep: &str) -> (out: String)
    ensures
        out@ == joined(parts.deep_view(), sep@),
{
    let ghost all = parts.deep_view();
    let mut out = String::new();
    assert(all.take(0) =~= Seq::empty());
    for i in 0..parts.len()
        invariant
            all == parts.deep_view(),
            out@ == joined(all.take(i as int), sep@),
    {
        assert(all.take(i + 1).drop_last() =~= all.take(i as int));
        if i > 0 {
            out.append(sep);
        }
        out.append(parts[i].as_str());
        assert(i == 0 ==> out@ =~= all[0]);
    }
    assert(all.take(all.len() as int) =~= all);
    out
}

// ─── What these functions do to any text ─────────────────────────────────────

/// Capital letters become the small letter thirty-two places further on, every
/// other character stays, and none moves.
pub proof fn law_ascii_lowered(s: Seq<char>, i: int)
    requires
        0 <= i < s.len(),
    ensures
        ascii_lowered(s).len() == s.len(),
        'A' <= s[i] <= 'Z' ==> ascii_lowered(s)[i] as int == s[i] as int + 32,
        !('A' <= s[i] <= 'Z') ==> ascii_lowered(s)[i] == s[i],
{
}

/// The characters that count as white space.
pub proof fn law_white_space(c: char)
    ensures
        white_space(c) <==> seq![
            '\t', '\n', '\u{b}', '\u{c}', '\r', ' ', '\u{85}', '\u{a0}', '\u{1680}', '\u{2000}',
            '\u{2001}', '\u{2002}', '\u{2003}', '\u{2004}', '\u{2005}', '\u{2006}', '\u{2007}',
            '\u{2008}', '\u{2009}', '\u{200a}', '\u{2028}', '\u{2029}', '\u{202f}', '\u{205f}',
            '\u{3000}',
        ].contains(c),
{
    let all = seq![
        '\t', '\n', '\u{b}', '\u{c}', '\r', ' ', '\u{85}', '\u{a0}', '\u{1680}', '\u{2000}',
        '\u{2001}', '\u{2002}', '\u{2003}', '\u{2004}', '\u{2005}', '\u{2006}', '\u{2007}',
        '\u{2008}', '\u{2009}', '\u{200a}', '\u{2028}', '\u{2029}', '\u{202f}', '\u{205f}',
        '\u{3000}',
    ];
    let n = c as u32;
    if white_space(c) {
        let i: int = if n <= 0x0d {
            n - 9
        } else if n == 0x20 {
            5
        } else if n == 0x85 {
            6
        } else if n == 0xa0 {
            7
        } else if n == 0x1680 {
            8
        } else if n <= 0x200a {
            n - 0x2000 + 9
        } else if n == 0x2028 {
            20
        } else if n == 0x2029 {
            21
        } else if n == 0x202f {
            22
        } else if n == 0x205f {
            23
        } else {
            24
        };
        assert(all[i] as u32 == n);
        assert(all[i] == c);
    }
}

proof fn lemma_trim_end(core: Seq<char>, right: Seq<char>)
    requires
        core.len() == 0 || !white_space(core.last()),
        forall|i: int| 0 <= i < right.len() ==> white_space(#[trigger] right[i]),
    ensures
        trim_end(core + right) == core,
    decreases right.len(),
{
    if right.len() > 0 {
        assert((core + right).drop_last() =~= core + right.drop_last());
        assert((core + right).last() == right[right.len() - 1]);
        lemma_trim_end(core, right.drop_last());
    } else {
        assert(core + right =~= core);
    }
}

proof fn lemma_trim_start(left: Seq<char>, core: Seq<char>)
    requires
        core.len() == 0 || !white_space(core[0]),
        forall|i: int| 0 <= i < left.len() ==> white_space(#[trigger] left[i]),
    ensures
        trim_start(left + core) == core,
    decreases left.len(),
{
    if left.len() > 0 {
        assert((left + core).drop_first() =~= left.drop_first() + core);
        assert((left + core)[0] == left[0]);
        assert forall|i: int| 0 <= i < left.drop_first().len() implies white_space(
            #[trigger] left.drop_first()[i],
        ) by {
            assert(white_space(left[i + 1]));
        }
        lemma_trim_start(left.drop_first(), core);
    } else {
        assert(left + core =~= core);
    }
}

/// Trimming takes the white space off both ends and nothing else.
pub proof fn law_trimmed(left: Seq<char>, core: Seq<char>, right: Seq<char>)
    requires
        forall|i: int| 0 <= i < left.len() ==> white_space(#[trigger] left[i]),
        forall|i: int| 0 <= i < right.len() ==> white_space(#[trigger] right[i]),
        core.len() == 0 || (!white_space(core[0]) && !white_space(core.last())),
    ensures
        trimmed(left + core + right) == core,
{
    if core.len() == 0 {
        let all = left + core + right;
        assert forall|i: int| 0 <= i < all.len() implies white_space(#[trigger] all[i]) by {
            if i < left.len() {
                assert(white_space(left[i]));
            } else {
                assert(white_space(right[i - left.len()]));
            }
        }
        assert(Seq::<char>::empty() + all =~= all);
        lemma_trim_end(Seq::empty(), all);
        assert(core =~= Seq::empty());
    } else {
        lemma_trim_end(left + core, right);
        lemma_trim_start(left, core);
    }
}

/// Parts with a separator between neighbours.
pub open spec fn glued(parts: Seq<Seq<char>>, sep: char) -> Seq<char>
    decreases parts.len(),
{
    if parts.len() <= 1 {
        parts[0]
    } else {
        glued(parts.drop_last(), sep) + seq![sep] + parts.last()
    }
}

proof fn lemma_split_part(s: Seq<char>, part: Seq<char>, sep: char)
    requires
        !part.contains(sep),
    ensures
        split_on(s + seq![sep] + part, sep) == split_on(s, sep).push(part),
    decreases part.len(),
{
    let all = s + seq![sep] + part;
    if part.len() == 0 {
        assert(all.drop_last() =~= s);
        assert(all.last() == sep);
        assert(part =~= Seq::empty());
    } else {
        let less = part.drop_last();
        assert forall|i: int| 0 <= i < less.len() implies less[i] != sep by {
            assert(part.contains(part[i]));
        }
        lemma_split_part(s, less, sep);
        assert(all.drop_last() =~= s + seq![sep] + less);
        assert(part.contains(part[part.len() - 1]));
        assert(all.last() == part.last());
        let parts = split_on(s, sep).push(less);
        assert(parts.drop_last() =~= split_on(s, sep));
        assert(less.push(part.last()) =~= part);
    }
}

proof fn lemma_split_none(part: Seq<char>, sep: char)
    requires
        !part.contains(sep),
    ensures
        split_on(part, sep) == seq![part],
    decreases part.len(),
{
    if part.len() > 0 {
        let less = part.drop_last();
        assert forall|i: int| 0 <= i < less.len() implies less[i] != sep by {
            assert(part.contains(part[i]));
        }
        lemma_split_none(less, sep);
        assert(part.contains(part[part.len() - 1]));
        assert(seq![less].drop_last() =~= Seq::empty());
        assert(less.push(part.last()) =~= part);
        assert(split_on(part, sep) =~= seq![part]);
    } else {
        assert(part =~= Seq::empty());
    }
}

/// Splitting at a separator gives back the parts that it stands between.
pub proof fn law_split(parts: Seq<Seq<char>>, sep: char)
    requires
        parts.len() > 0,
        forall|i: int| 0 <= i < parts.len() ==> !(#[trigger] parts[i]).contains(sep),
    ensures
        split_on(glued(parts, sep), sep) == parts,
    decreases parts.len(),
{
    if parts.len() == 1 {
        assert(!parts[0].contains(sep));
        lemma_split_none(parts[0], sep);
        assert(seq![parts[0]] =~= parts);
    } else {
        let front = parts.drop_last();
        assert forall|i: int| 0 <= i < front.len() implies !(#[trigger] front[i]).contains(
            sep,
        ) by {
            assert(!parts[i].contains(sep));
        }
        law_split(front, sep);
        assert(!parts[parts.len() - 1].contains(sep));
        lemma_split_part(glued(front, sep), parts.last(), sep);
        assert(front.push(parts.last()) =~= parts);
    }
}

/// Lines with the ends that they have, `\r\n` or `\n`, and what follows them.
pub open spec fn ended_lines(lines: Seq<(Seq<char>, bool)>, rest: Seq<char>) -> Seq<Seq<char>> {
    lines.map_values(
        |line: (Seq<char>, bool)|
            if line.1 {
                line.0.push('\r')
            } else {
                line.0
            },
    ).push(rest)
}

/// The lines of a text are what stands before each of its line ends, and what
/// is left behind the last one if there is anything.
pub proof fn law_lines(lines: Seq<(Seq<char>, bool)>, rest: Seq<char>)
    requires
        forall|i: int|
            0 <= i < lines.len() ==> !(#[trigger] lines[i]).0.contains('\n') && (lines[i].0.len()
                == 0 || lines[i].0.last() != '\r'),
        !rest.contains('\n'),
    ensures
        lines_of(glued(ended_lines(lines, rest), '\n')) == lines.map_values(
            |line: (Seq<char>, bool)| line.0,
        ) + if rest.len() == 0 {
            Seq::empty()
        } else {
            seq![rest]
        },
{
    let parts = ended_lines(lines, rest);
    assert forall|i: int| 0 <= i < parts.len() implies !(#[trigger] parts[i]).contains('\n') by {
        if i < lines.len() {
            assert(!lines[i].0.contains('\n'));
            if parts[i].contains('\n') {
                let k = parts[i].index_of('\n');
                assert(parts[i][k] == '\n');
                assert(k < lines[i].0.len());
                assert(lines[i].0[k] == '\n');
                assert(lines[i].0.contains('\n'));
            }
        }
    }
    law_split(parts, '\n');
    let texts = lines.map_values(|line: (Seq<char>, bool)| line.0);
    let ended = parts.drop_last().map_values(|line: Seq<char>| without_return(line));
    assert(ended =~= texts) by {
        assert forall|i: int| 0 <= i < texts.len() implies ended[i] == texts[i] by {
            assert(!lines[i].0.contains('\n'));
            assert(parts.drop_last()[i] == parts[i]);
            if lines[i].1 {
                assert(lines[i].0.push('\r').drop_last() =~= lines[i].0);
            }
        }
    }
    assert(texts + seq![rest] =~= texts.push(rest));
    assert(texts + Seq::empty() =~= texts);
}

/// A text starts with another if something can be put behind that to give it.
pub proof fn law_starts_with(s: Seq<char>, prefix: Seq<char>, rest: Seq<char>)
    ensures
        starts_with(prefix + rest, prefix),
        starts_with(s, prefix) ==> s == prefix + s.skip(prefix.len() as int),
{
    assert((prefix + rest).take(prefix.len() as int) =~= prefix);
    if starts_with(s, prefix) {
        assert(s =~= s.take(prefix.len() as int) + s.skip(prefix.len() as int));
    }
}

/// Joining puts the separator between neighbours, and nothing before the first
/// or behind the last.
pub proof fn law_joined(parts: Seq<Seq<char>>, more: Seq<char>, sep: Seq<char>)
    ensures
        joined(Seq::empty(), sep) == Seq::<char>::empty(),
        joined(seq![more], sep) == more,
        parts.len() > 0 ==> joined(parts.push(more), sep) == joined(parts, sep) + sep + more,
{
    assert(parts.push(more).drop_last() =~= parts);
}

/// A character is found where it stands for the first time.
pub proof fn law_first_of(before: Seq<char>, c: char, after: Seq<char>)
    requires
        !before.contains(c),
    ensures
        first_of(before, c) == before.len(),
        first_of(before + seq![c] + after, c) == before.len(),
    decreases before.len(),
{
    let all = before + seq![c] + after;
    if before.len() > 0 {
        let rest = before.drop_first();
        assert forall|i: int| 0 <= i < rest.len() implies rest[i] != c by {
            assert(before.contains(before[i + 1]));
        }
        law_first_of(rest, c, after);
        assert(before.contains(before[0]));
        assert(all[0] == before[0]);
        assert(all.drop_first() =~= rest + seq![c] + after);
    } else {
        assert(all[0] == c);
    }
}

/// What is trimmed, split, cut into lines, searched and joined is what the laws
/// of texts say.
pub proof fn law_trim(s: &Vec<char>, out: Vec<char>, left: Seq<char>, core: Seq<char>, right: Seq<char>)
    requires
        call_ensures(trim, (s,), out),
        s@ == left + core + right,
        forall|i: int| 0 <= i < left.len() ==> white_space(#[trigger] left[i]),
        forall|i: int| 0 <= i < right.len() ==> white_space(#[trigger] right[i]),
        core.len() == 0 || (!white_space(core[0]) && !white_space(core.last())),
    ensures
        out@ == core,
{
    law_trimmed(left, core, right);
}

/// A text is split into the parts that its separators stand between.
pub proof fn law_split_parts(s: &Vec<char>, sep: char, out: Vec<Vec<char>>, parts: Seq<Seq<char>>)
    requires
        call_ensures(split, (s, sep), out),
        parts.len() > 0,
        forall|i: int| 0 <= i < parts.len() ==> !(#[trigger] parts[i]).contains(sep),
        s@ == glued(parts, sep),
    ensures
        out.len() == parts.len(),
        forall|i: int| 0 <= i < parts.len() ==> (#[trigger] out@[i])@ == parts[i],
{
    law_split(parts, sep);
    let deep = out.deep_view();
    assert(deep.len() == out.len());
    assert forall|i: int| 0 <= i < parts.len() implies (#[trigger] out@[i])@ == parts[i] by {
        assert(deep[i] == out@[i].deep_view());
        assert(out@[i].deep_view() =~= out@[i]@);
    }
}

/// A text is cut into its lines, whichever way they end.
pub proof fn law_lines_cut(
    s: &Vec<char>,
    out: Vec<Vec<char>>,
    ended: Seq<(Seq<char>, bool)>,
    rest: Seq<char>,
    i: int,
)
    requires
        call_ensures(lines, (s,), out),
        s@ == glued(ended_lines(ended, rest), '\n'),
        forall|k: int|
            0 <= k < ended.len() ==> !(#[trigger] ended[k]).0.contains('\n') && (ended[k].0.len()
                == 0 || ended[k].0.last() != '\r'),
        !rest.contains('\n'),
        0 <= i < ended.len(),
    ensures
        out.len() == ended.len() + if rest.len() == 0 {
            0int
        } else {
            1
        },
        out@[i]@ == ended[i].0,
        rest.len() > 0 ==> out@[ended.len() as int]@ == rest,
{
    law_lines(ended, rest);
    let deep = out.deep_view();
    assert(deep.len() == out.len());
    assert(deep[i] == out@[i].deep_view());
    assert(out@[i].deep_view() =~= out@[i]@);
    if rest.len() > 0 {
        let n = ended.len() as int;
        assert(deep[n] == out@[n].deep_view());
        assert(out@[n].deep_view() =~= out@[n]@);
    }
}

/// A character is found where it stands first, and a text starts with another if
/// its first characters are the other's.
pub proof fn law_found(
    s: &Vec<char>,
    c: char,
    at: usize,
    prefix: &str,
    starts: bool,
    rest: Seq<char>,
)
    requires
        call_ensures(find_char, (s, c), at),
        call_ensures(has_prefix, (s, prefix), starts),
    ensures
        forall|i: int| 0 <= i < at ==> s@[i] != c,
        at < s.len() ==> s@[at as int] == c,
        at <= s.len(),
        s@ == prefix@ + rest ==> starts,
        starts ==> forall|i: int| 0 <= i < prefix@.len() ==> i < s.len() && s@[i] == prefix@[i],
{
    lemma_first_of(s@, c);
    law_starts_with(s@, prefix@, rest);
}

proof fn lemma_first_of(s: Seq<char>, c: char)
    ensures
        first_of(s, c) <= s.len(),
        forall|i: int| 0 <= i < first_of(s, c) ==> s[i] != c,
        first_of(s, c) < s.len() ==> s[first_of(s, c) as int] == c,
    decreases s.len(),
{
    if s.len() > 0 && s[0] != c {
        let rest = s.drop_first();
        lemma_first_of(rest, c);
        assert forall|i: int| 0 <= i < first_of(s, c) implies s[i] != c by {
            if i > 0 {
                assert(s[i] == rest[i - 1]);
            }
        }
    }
}

/// Texts are joined with the separator between neighbours.
pub proof fn law_join(
    parts: &Vec<String>,
    more: &Vec<String>,
    sep: &str,
    out: String,
    longer: String,
)
    requires
        call_ensures(join, (parts, sep), out),
        call_ensures(join, (more, sep), longer),
        more.len() == parts.len() + 1,
        forall|i: int| 0 <= i < parts.len() ==> (#[trigger] more@[i])@ == parts@[i]@,
    ensures
        longer@ == if parts.len() == 0 {
            more@[0]@
        } else {
            out@ + sep@ + more@[parts.len() as int]@
        },
        parts.len() == 0 ==> out@.len() == 0,
{
    let (a, b) = (parts.deep_view(), more.deep_view());
    let last = more@[parts.len() as int]@;
    assert(b =~= a.push(last)) by {
        assert forall|i: int| 0 <= i < b.len() implies b[i] == a.push(last)[i] by {
            assert(b[i] == more@[i]@);
        }
    }
    law_joined(a, last, sep@);
    if parts.len() == 0 {
        assert(a =~= Seq::empty());
        assert(b =~= seq![last]);
    }
}

/// Letters of `A` to `Z` are made small, and nothing else is.
pub proof fn law_small_letter(c: char, out: char, blank: bool)
    requires
        call_ensures(to_small_letter, (c,), out),
        call_ensures(is_white_space, (c,), blank),
    ensures
        'A' <= c <= 'Z' ==> out as int == c as int + 32,
        !('A' <= c <= 'Z') ==> out == c,
        blank == white_space(c),
{
    law_ascii_lowered(seq![c], 0);
}

} // verus!
