//! Character-level helpers on which the rest of the crate builds its
//! handling of dotted names and slash-separated paths.
use vstd::prelude::*;

verus! {

/// The pieces of `s` between occurrences of `sep`. There is always at least
/// one piece; a separator at either end yields an empty piece there.
pub open spec fn split_on(s: Seq<char>, sep: char) -> Seq<Seq<char>>
    decreases s.len(),
{
    if s.len() == 0 {
        seq![Seq::<char>::empty()]
    } else {
        let before = split_on(s.drop_last(), sep);
        if s.last() == sep {
            before.push(Seq::<char>::empty())
        } else {
            before.update(before.len() - 1, before.last().push(s.last()))
        }
    }
}

/// The pieces concatenated with one `sep` between neighbours.
pub open spec fn join_with(parts: Seq<Seq<char>>, sep: char) -> Seq<char>
    decreases parts.len(),
{
    if parts.len() == 0 {
        Seq::<char>::empty()
    } else if parts.len() == 1 {
        parts[0]
    } else {
        join_with(parts.drop_last(), sep).push(sep) + parts.last()
    }
}

/// Whether `c` occurs nowhere in `s`.
pub open spec fn free_of(s: Seq<char>, c: char) -> bool {
    forall|i: int| 0 <= i < s.len() ==> s[i] != c
}

/// Splitting yields at least one piece, and no piece holds the separator.
pub proof fn lemma_split_pieces(s: Seq<char>, sep: char)
    ensures
        split_on(s, sep).len() >= 1,
        forall|i: int| 0 <= i < split_on(s, sep).len() ==> free_of(#[trigger] split_on(s, sep)[i], sep),
    decreases s.len(),
{
    if s.len() > 0 {
        lemma_split_pieces(s.drop_last(), sep);
    }
}

/// A text without the separator is its own single piece.
pub proof fn lemma_split_free(s: Seq<char>, sep: char)
    requires
        free_of(s, sep),
    ensures
        split_on(s, sep) == seq![s],
    decreases s.len(),
{
    if s.len() > 0 {
        lemma_split_free(s.drop_last(), sep);
        assert(split_on(s, sep) =~= seq![s]) by {
            assert(s.drop_last().push(s.last()) =~= s);
        }
    } else {
        assert(s =~= Seq::<char>::empty());
    }
}

/// After a separator, a piece without separators is one more piece.
pub proof fn lemma_split_append(a: Seq<char>, b: Seq<char>, sep: char)
    requires
        free_of(b, sep),
    ensures
        split_on(a.push(sep) + b, sep) == split_on(a, sep).push(b),
    decreases b.len(),
{
    let whole = a.push(sep) + b;
    if b.len() == 0 {
        assert(whole.drop_last() =~= a);
        assert(b =~= Seq::<char>::empty());
    } else {
        lemma_split_append(a, b.drop_last(), sep);
        assert(whole.drop_last() =~= a.push(sep) + b.drop_last());
        assert(whole.last() == b.last());
        let before = split_on(a, sep).push(b.drop_last());
        assert(before.update(before.len() - 1, before.last().push(b.last())) =~= split_on(
            a,
            sep,
        ).push(b)) by {
            assert(b.drop_last().push(b.last()) =~= b);
        }
    }
}

/// Joining pieces that hold no separator, then splitting, gives the pieces back.
pub proof fn lemma_split_join(parts: Seq<Seq<char>>, sep: char)
    requires
        parts.len() >= 1,
        forall|i: int| 0 <= i < parts.len() ==> free_of(#[trigger] parts[i], sep),
    ensures
        split_on(join_with(parts, sep), sep) == parts,
    decreases parts.len(),
{
    if parts.len() == 1 {
        lemma_split_free(parts[0], sep);
        assert(seq![parts[0]] =~= parts);
    } else {
        lemma_split_join(parts.drop_last(), sep);
        lemma_split_append(join_with(parts.drop_last(), sep), parts.last(), sep);
        assert(parts.drop_last().push(parts.last()) =~= parts);
    }
}

/// Splitting, then joining, gives the text back.
pub proof fn lemma_join_split(s: Seq<char>, sep: char)
    ensures
        join_with(split_on(s, sep), sep) == s,
    decreases s.len(),
{
    lemma_split_pieces(s, sep);
    if s.len() == 0 {
    } else {
        let before = split_on(s.drop_last(), sep);
        lemma_split_pieces(s.drop_last(), sep);
        lemma_join_split(s.drop_last(), sep);
        if s.last() == sep {
            let now = before.push(Seq::<char>::empty());
            assert(now.drop_last() =~= before);
            assert(join_with(now, sep) =~= s);
        } else {
            let now = before.update(before.len() - 1, before.last().push(s.last()));
            if before.len() == 1 {
                assert(join_with(now, sep) =~= s);
            } else {
                assert(now.drop_last() =~= before.drop_last());
                assert(now.last() == before.last().push(s.last()));
                assert(s.drop_last() == join_with(before.drop_last(), sep).push(sep)
                    + before.last());
                assert(s =~= s.drop_last().push(s.last()));
                assert(join_with(now, sep) =~= s);
            }
        }
    }
}

/// The views of a vector of character vectors.
pub open spec fn views(v: Seq<Vec<char>>) -> Seq<Seq<char>> {
    v.map_values(|p: Vec<char>| p@)
}

/// Appends one character with `String::push`: the string's characters
/// afterwards are those before, followed by `c`.
#[verifier::external_body]
fn push_char(s: &mut String, c: char)
    ensures
        final(s)@ == old(s)@.push(c),
{
    s.push(c)
}

/// The characters of `s`, in order.
pub fn chars_of(s: &str) -> (v: Vec<char>)
    ensures
        v@ == s@,
{
    let mut v: Vec<char> = Vec::new();
    for c in it: s.chars()
        invariant
            it.seq() == s@,
            v@ == s@.take(it.index()),
    {
        v.push(c);
    }
    v
}

/// The string made of `chars`, in order.
pub fn string_of(chars: &Vec<char>) -> (s: String)
    ensures
        s@ == chars@,
{
    let mut s = String::new();
    let mut i: usize = 0;
    while i < chars.len()
        invariant
            i <= chars.len(),
            s@ == chars@.take(i as int),
        decreases chars.len() - i,
    {
        push_char(&mut s, chars[i]);
        i = i + 1;
    }
    s
}

/// Whether `prefix` opens `s`.
pub fn starts_with(s: &Vec<char>, prefix: &Vec<char>) -> (r: bool)
    ensures
        r == prefix@.is_prefix_of(s@),
{
    if prefix.len() > s.len() {
        return false;
    }
    let mut i: usize = 0;
    while i < prefix.len()
        invariant
            i <= prefix.len() <= s.len(),
            forall|j: int| 0 <= j < i ==> s@[j] == prefix@[j],
        decreases prefix.len() - i,
    {
        if s[i] != prefix[i] {
            assert(s@.subrange(0, prefix@.len() as int)[i as int] != prefix@[i as int]);
            return false;
        }
        i = i + 1;
    }
    assert(prefix@ =~= s@.subrange(0, prefix@.len() as int));
    true
}

/// Whether two character vectors hold the same characters.
pub fn same_chars(a: &Vec<char>, b: &Vec<char>) -> (r: bool)
    ensures
        r == (a@ == b@),
{
    if a.len() != b.len() {
        return false;
    }
    let mut i: usize = 0;
    while i < a.len()
        invariant
            i <= a.len(),
            a.len() == b.len(),
            forall|j: int| 0 <= j < i ==> a@[j] == b@[j],
        decreases a.len() - i,
    {
        if a[i] != b[i] {
            return false;
        }
        i = i + 1;
    }
    assert(a@ =~= b@);
    true
}

/// Splits at every `sep`.
pub fn split_chars(s: &Vec<char>, sep: char) -> (parts: Vec<Vec<char>>)
    ensures
        views(parts@) == split_on(s@, sep),
{
    let mut parts: Vec<Vec<char>> = Vec::new();
    let mut current: Vec<char> = Vec::new();
    let mut i: usize = 0;
    assert(views(parts@).push(current@) =~= split_on(s@.take(0), sep));
    while i < s.len()
        invariant
            i <= s.len(),
            views(parts@).push(current@) == split_on(s@.take(i as int), sep),
        decreases s.len() - i,
    {
        let ghost before = views(parts@).push(current@);
        proof {
            assert(s@.take(i + 1).drop_last() =~= s@.take(i as int));
        }
        let c = s[i];
        if c == sep {
            parts.push(current);
            current = Vec::new();
            assert(views(parts@).push(current@) =~= before.push(Seq::<char>::empty()));
        } else {
            current.push(c);
            assert(views(parts@).push(current@) =~= before.update(
                before.len() - 1,
                before.last().push(c),
            ));
        }
        i = i + 1;
    }
    proof {
        assert(s@.take(s@.len() as int) =~= s@);
    }
    let ghost before = views(parts@).push(current@);
    parts.push(current);
    assert(views(parts@) =~= before);
    parts
}

/// Joins the first `count` pieces with `sep`.
pub fn join_chars(parts: &Vec<Vec<char>>, count: usize, sep: char) -> (joined: Vec<char>)
    requires
        count <= parts.len(),
    ensures
        joined@ == join_with(views(parts@).take(count as int), sep),
{
    let mut joined: Vec<char> = Vec::new();
    let mut i: usize = 0;
    while i < count
        invariant
            i <= count <= parts.len(),
            joined@ == join_with(views(parts@).take(i as int), sep),
        decreases count - i,
    {
        let ghost taken = views(parts@).take(i + 1);
        proof {
            assert(taken.drop_last() =~= views(parts@).take(i as int));
            assert(taken.last() == parts@[i as int]@);
        }
        if i > 0 {
            joined.push(sep);
        }
        let piece = &parts[i];
        let ghost start = joined@;
        let mut j: usize = 0;
        while j < piece.len()
            invariant
                j <= piece.len(),
                joined@ == start + piece@.take(j as int),
            decreases piece.len() - j,
        {
            joined.push(piece[j]);
            assert(piece@.take(j + 1) =~= piece@.take(j as int).push(piece@[j as int]));
            j = j + 1;
        }
        assert(piece@.take(piece@.len() as int) =~= piece@);
        assert(joined@ =~= join_with(taken, sep));
        i = i + 1;
    }
    joined
}

/// Whether a character is white space: whether it has the property
/// White_Space of Unicode. Those are the space, the controls from tab to
/// carriage return, next line, the no-break spaces, the Ogham space mark,
/// the spaces from en quad to hair space, the line and the paragraph
/// separator, the medium mathematical space and the ideographic space.
pub open spec fn white_space(c: char) -> bool {
    let code = c as u32;
    ||| code == 0x20
    ||| 0x09 <= code <= 0x0d
    ||| code == 0x85
    ||| code == 0xa0
    ||| code == 0x1680
    ||| 0x2000 <= code <= 0x200a
    ||| code == 0x2028
    ||| code == 0x2029
    ||| code == 0x202f
    ||| code == 0x205f
    ||| code == 0x3000
}

/// Asks `char::is_whitespace` whether the character is white space, which
/// it says of the characters with the property White_Space.
#[verifier::external_body]
pub(crate) fn is_whitespace(c: char) -> (r: bool)
    ensures
        r == white_space(c),
{
    c.is_whitespace()
}

/// `s` without the white space at its end.
pub open spec fn trimmed_end(s: Seq<char>) -> Seq<char>
    decreases s.len(),
{
    if s.len() > 0 && white_space(s.last()) {
        trimmed_end(s.drop_last())
    } else {
        s
    }
}

/// `s` without the white space at its start.
pub open spec fn trimmed_start(s: Seq<char>) -> Seq<char>
    decreases s.len(),
{
    if s.len() > 0 && white_space(s[0]) {
        trimmed_start(s.drop_first())
    } else {
        s
    }
}

/// `s` without the white space at either end.
pub open spec fn trimmed(s: Seq<char>) -> Seq<char> {
    trimmed_start(trimmed_end(s))
}

/// `s` without the run of `c` at its end.
pub open spec fn without_trailing(s: Seq<char>, c: char) -> Seq<char>
    decreases s.len(),
{
    if s.len() > 0 && s.last() == c {
        without_trailing(s.drop_last(), c)
    } else {
        s
    }
}

/// How many times `c` stands at the start of `s` before another character.
pub open spec fn leading_count(s: Seq<char>, c: char) -> nat
    decreases s.len(),
{
    if s.len() > 0 && s[0] == c {
        1 + leading_count(s.drop_first(), c)
    } else {
        0
    }
}

/// `s` with every carriage return that a line feed follows taken out.
pub open spec fn crlf_to_lf(s: Seq<char>) -> Seq<char>
    decreases s.len(),
{
    if s.len() == 0 {
        s
    } else if s.len() >= 2 && s[0] == '\r' && s[1] == '\n' {
        seq!['\n'] + crlf_to_lf(s.skip(2))
    } else {
        seq![s[0]] + crlf_to_lf(s.drop_first())
    }
}

/// The characters of `s` from `from` up to `to`.
pub fn slice_chars(s: &Vec<char>, from: usize, to: usize) -> (piece: Vec<char>)
    requires
        from <= to <= s.len(),
    ensures
        piece@ == s@.subrange(from as int, to as int),
{
    let mut piece: Vec<char> = Vec::new();
    let mut i: usize = from;
    while i < to
        invariant
            from <= i <= to <= s.len(),
            piece@ == s@.subrange(from as int, i as int),
        decreases to - i,
    {
        piece.push(s[i]);
        assert(s@.subrange(from as int, i + 1) =~= s@.subrange(from as int, i as int).push(
            s@[i as int],
        ));
        i = i + 1;
    }
    piece
}

/// Where the white space at the end of `s` begins.
pub fn trim_end_length(s: &Vec<char>) -> (length: usize)
    ensures
        length <= s.len(),
        s@.take(length as int) == trimmed_end(s@),
{
    let mut length: usize = s.len();
    assert(s@.take(length as int) =~= s@);
    while length > 0 && is_whitespace(s[length - 1])
        invariant
            length <= s.len(),
            trimmed_end(s@) == trimmed_end(s@.take(length as int)),
        decreases length,
    {
        assert(s@.take(length as int).drop_last() =~= s@.take(length - 1));
        length = length - 1;
    }
    length
}

/// Where the white space at the start of `s` ends.
pub fn trim_start_offset(s: &Vec<char>) -> (offset: usize)
    ensures
        offset <= s.len(),
        s@.skip(offset as int) == trimmed_start(s@),
{
    let mut offset: usize = 0;
    assert(s@.skip(0) =~= s@);
    while offset < s.len() && is_whitespace(s[offset])
        invariant
            offset <= s.len(),
            trimmed_start(s@) == trimmed_start(s@.skip(offset as int)),
        decreases s.len() - offset,
    {
        assert(s@.skip(offset as int).drop_first() =~= s@.skip(offset + 1));
        offset = offset + 1;
    }
    offset
}

/// The characters of `s` without the white space at either end.
pub fn trim_chars(s: &Vec<char>) -> (r: Vec<char>)
    ensures
        r@ == trimmed(s@),
{
    let length = trim_end_length(s);
    let kept = slice_chars(s, 0, length);
    assert(kept@ =~= s@.take(length as int));
    let offset = trim_start_offset(&kept);
    let r = slice_chars(&kept, offset, kept.len());
    assert(r@ =~= kept@.skip(offset as int));
    r
}

/// Where the run of `c` at the end of `s` begins.
pub fn trailing_run_start(s: &Vec<char>, c: char) -> (length: usize)
    ensures
        length <= s.len(),
        s@.take(length as int) == without_trailing(s@, c),
{
    let mut length: usize = s.len();
    assert(s@.take(length as int) =~= s@);
    while length > 0 && s[length - 1] == c
        invariant
            length <= s.len(),
            without_trailing(s@, c) == without_trailing(s@.take(length as int), c),
        decreases length,
    {
        assert(s@.take(length as int).drop_last() =~= s@.take(length - 1));
        length = length - 1;
    }
    length
}

/// Counts how many times `c` stands at the start of `s`.
pub fn count_leading(s: &Vec<char>, c: char) -> (count: usize)
    ensures
        count == leading_count(s@, c),
        count <= s.len(),
{
    let mut count: usize = 0;
    assert(s@.skip(0) =~= s@);
    while count < s.len() && s[count] == c
        invariant
            count <= s.len(),
            leading_count(s@, c) == count + leading_count(s@.skip(count as int), c),
        decreases s.len() - count,
    {
        proof {
            let rest = s@.skip(count as int);
            assert(rest[0] == s@[count as int]);
            assert(rest.drop_first() =~= s@.skip(count + 1));
        }
        count = count + 1;
    }
    proof {
        let rest = s@.skip(count as int);
        if count < s.len() {
            assert(rest[0] == s@[count as int]);
        }
    }
    count
}

/// Takes out every carriage return that a line feed follows.
pub fn normalize_newlines(s: &Vec<char>) -> (r: Vec<char>)
    ensures
        r@ == crlf_to_lf(s@),
{
    let mut r: Vec<char> = Vec::new();
    let mut i: usize = 0;
    assert(s@.skip(0) =~= s@);
    while i < s.len()
        invariant
            i <= s.len(),
            crlf_to_lf(s@) == r@ + crlf_to_lf(s@.skip(i as int)),
        decreases s.len() - i,
    {
        let ghost rest = s@.skip(i as int);
        let ghost before = r@;
        assert(rest[0] == s@[i as int]);
        if s[i] == '\r' && i + 1 < s.len() && s[i + 1] == '\n' {
            assert(rest[1] == s@[i + 1]);
            assert(rest.skip(2) =~= s@.skip(i + 2));
            r.push('\n');
            assert(r@ + crlf_to_lf(s@.skip(i + 2)) =~= before + (seq!['\n'] + crlf_to_lf(
                rest.skip(2),
            )));
            i = i + 2;
        } else {
            proof {
                if rest.len() >= 2 {
                    assert(rest[1] == s@[i + 1]);
                }
            }
            assert(rest.drop_first() =~= s@.skip(i + 1));
            r.push(s[i]);
            assert(r@ + crlf_to_lf(s@.skip(i + 1)) =~= before + (seq![rest[0]] + crlf_to_lf(
                rest.drop_first(),
            )));
            i = i + 1;
        }
    }
    assert(r@ + crlf_to_lf(s@.skip(s@.len() as int)) =~= r@);
    r
}

} // verus!
