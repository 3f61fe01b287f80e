//! Text as a sequence of characters: the cuts, trims and comparisons the
//! parsers are made of.
//!
//! The executable functions work on `&[char]`, so a piece of a line is a
//! subslice of it and costs no copy.

use vstd::prelude::*;
use vstd::slice::slice_subrange;

verus! {

/// Appends one character to the end of a string, as `String::push` documents.
pub assume_specification[ String::push ](s: &mut String, c: char)
    ensures
        final(s)@ == old(s)@.push(c),
;

/// Whether a character has the Unicode `White_Space` property.
pub open spec fn is_space(c: char) -> bool {
    ||| '\u{9}' <= c <= '\u{d}'
    ||| c == ' '
    ||| c == '\u{85}'
    ||| c == '\u{a0}'
    ||| c == '\u{1680}'
    ||| '\u{2000}' <= c <= '\u{200a}'
    ||| c == '\u{2028}'
    ||| c == '\u{2029}'
    ||| c == '\u{202f}'
    ||| c == '\u{205f}'
    ||| c == '\u{3000}'
}

/// Where `c` first stands in `s`, or the length of `s` where it does not.
pub open spec fn position_of(s: Seq<char>, c: char) -> int
    decreases s.len(),
{
    if s.len() == 0 || s[0] == c {
        0
    } else {
        1 + position_of(s.skip(1), c)
    }
}

/// The text before and the text after the first `c`.
pub open spec fn cut(s: Seq<char>, c: char) -> Option<(Seq<char>, Seq<char>)> {
    let at = position_of(s, c);
    if at < s.len() {
        Some((s.take(at), s.skip(at + 1)))
    } else {
        None
    }
}

/// The pieces of `s` between the `sep` characters, empty ones included.
pub open spec fn pieces(s: Seq<char>, sep: char) -> Seq<Seq<char>>
    decreases s.len(),
    when s.len() >= 0
    via pieces_decreases
{
    match cut(s, sep) {
        Some((head, tail)) => seq![head] + pieces(tail, sep),
        None => seq![s],
    }
}

#[via_fn]
proof fn pieces_decreases(s: Seq<char>, sep: char) {
    lemma_position(s, sep);
}

/// The text without the white space at its start.
pub open spec fn trimmed_start(s: Seq<char>) -> Seq<char>
    decreases s.len(),
{
    if s.len() > 0 && is_space(s[0]) {
        trimmed_start(s.skip(1))
    } else {
        s
    }
}

/// The text without the white space at its end.
pub open spec fn trimmed_end(s: Seq<char>) -> Seq<char>
    decreases s.len(),
{
    if s.len() > 0 && is_space(s.last()) {
        trimmed_end(s.drop_last())
    } else {
        s
    }
}

/// The text without the white space at either end.
pub open spec fn trimmed(s: Seq<char>) -> Seq<char> {
    trimmed_end(trimmed_start(s))
}

/// The text up to its first white space.
pub open spec fn up_to_space(s: Seq<char>) -> Seq<char>
    decreases s.len(),
{
    if s.len() == 0 || is_space(s[0]) {
        Seq::empty()
    } else {
        seq![s[0]] + up_to_space(s.skip(1))
    }
}

/// The first word of the text, words being what white space separates; empty
/// where there is none.
pub open spec fn first_word_of(s: Seq<char>) -> Seq<char> {
    up_to_space(trimmed_start(s))
}

/// A line that a line feed ended, without the carriage return before it.
pub open spec fn without_return(s: Seq<char>) -> Seq<char> {
    if s.len() > 0 && s.last() == '\r' {
        s.drop_last()
    } else {
        s
    }
}

/// The lines of the text: each ends at a line feed, with or without a carriage
/// return before it, and the last may end with the text.
pub open spec fn lines_of(s: Seq<char>) -> Seq<Seq<char>>
    decreases s.len(),
    when s.len() >= 0
    via lines_decreases
{
    if s.len() == 0 {
        Seq::empty()
    } else {
        match cut(s, '\n') {
            Some((head, tail)) => seq![without_return(head)] + lines_of(tail),
            None => seq![s],
        }
    }
}

#[via_fn]
proof fn lines_decreases(s: Seq<char>) {
    lemma_position(s, '\n');
}

/// Whether `a` comes before `b` in the order of text, which is that of the
/// first character in which they differ, a prefix before what it begins.
pub open spec fn precedes(a: Seq<char>, b: Seq<char>) -> bool
    decreases a.len(),
{
    if b.len() == 0 {
        false
    } else if a.len() == 0 {
        true
    } else if a[0] != b[0] {
        a[0] < b[0]
    } else {
        precedes(a.skip(1), b.skip(1))
    }
}

/// What an optional text holds.
pub open spec fn optional(s: Option<String>) -> Option<Seq<char>> {
    match s {
        Some(s) => Some(s@),
        None => None,
    }
}

/// What a list of pieces holds.
pub open spec fn views(v: Seq<&[char]>) -> Seq<Seq<char>> {
    v.map_values(|piece: &[char]| piece@)
}

/// `position_of` is the first position that holds the character.
pub proof fn lemma_position(s: Seq<char>, c: char)
    ensures
        0 <= position_of(s, c) <= s.len(),
        position_of(s, c) < s.len() ==> s[position_of(s, c)] == c,
        forall|i: int| 0 <= i < position_of(s, c) ==> s[i] != c,
    decreases s.len(),
{
    if s.len() > 0 && s[0] != c {
        lemma_position(s.skip(1), c);
        assert forall|i: int| 0 <= i < position_of(s, c) implies s[i] != c by {
            if i > 0 {
                assert(s[i] == s.skip(1)[i - 1]);
            }
        }
    }
}

/// A position that holds the character, and none before it does, is where the
/// character first stands.
proof fn lemma_position_is(s: Seq<char>, c: char, at: int)
    requires
        0 <= at <= s.len(),
        at < s.len() ==> s[at] == c,
        forall|i: int| 0 <= i < at ==> s[i] != c,
    ensures
        position_of(s, c) == at,
{
    lemma_position(s, c);
}

/// Whether a text is nothing but white space.
pub open spec fn all_space(s: Seq<char>) -> bool {
    forall|i: int| 0 <= i < s.len() ==> is_space(#[trigger] s[i])
}

/// White space is what Unicode lists as such, by code point.
pub proof fn law_white_space(c: char)
    ensures
        is_space(c) <==> {
            let code = c as u32;
            ||| 0x09 <= code <= 0x0d
            ||| 0x2000 <= code <= 0x200a
            ||| code == 0x20 || code == 0x85 || code == 0xa0 || code == 0x1680
            ||| code == 0x2028 || code == 0x2029 || code == 0x202f || code == 0x205f
            ||| code == 0x3000
        },
{
}

proof fn lemma_trimmed_start(lead: Seq<char>, core: Seq<char>)
    requires
        all_space(lead),
        core.len() > 0 ==> !is_space(core[0]),
    ensures
        trimmed_start(lead + core) == core,
    decreases lead.len(),
{
    let whole = lead + core;
    if lead.len() > 0 {
        assert(whole[0] == lead[0]);
        assert(whole.skip(1) =~= lead.skip(1) + core);
        assert forall|i: int| 0 <= i < lead.skip(1).len() implies is_space(
            #[trigger] lead.skip(1)[i],
        ) by {
            assert(lead.skip(1)[i] == lead[i + 1]);
        }
        lemma_trimmed_start(lead.skip(1), core);
    } else {
        assert(whole =~= core);
    }
}

proof fn lemma_trimmed_end(core: Seq<char>, tail: Seq<char>)
    requires
        all_space(tail),
        core.len() > 0 ==> !is_space(core.last()),
    ensures
        trimmed_end(core + tail) == core,
    decreases tail.len(),
{
    let whole = core + tail;
    if tail.len() > 0 {
        assert(whole.last() == tail[tail.len() - 1]);
        assert(whole.drop_last() =~= core + tail.drop_last());
        assert forall|i: int| 0 <= i < tail.drop_last().len() implies is_space(
            #[trigger] tail.drop_last()[i],
        ) by {
            assert(tail.drop_last()[i] == tail[i]);
        }
        lemma_trimmed_end(core, tail.drop_last());
    } else {
        assert(whole =~= core);
    }
}

/// Trimming takes the white space around a text and nothing else: what is left
/// of a text between white space is that text, where it begins and ends with
/// something else.
pub proof fn law_trimmed(lead: Seq<char>, core: Seq<char>, tail: Seq<char>)
    requires
        all_space(lead),
        all_space(tail),
        core.len() > 0 ==> !is_space(core[0]) && !is_space(core.last()),
    ensures
        trimmed(lead + core + tail) == core,
        trimmed_end(core + tail) == core,
        core.len() > 0 ==> trimmed_end(lead + core + tail) == lead + core,
{
    lemma_trimmed_end(core, tail);
    if core.len() > 0 {
        lemma_trimmed_end(lead + core, tail);
        assert(lead + core + tail =~= lead + (core + tail));
        assert((core + tail)[0] == core[0]);
        lemma_trimmed_start(lead, core + tail);
    } else {
        let spaces = lead + core + tail;
        assert forall|i: int| 0 <= i < spaces.len() implies is_space(#[trigger] spaces[i]) by {
            if i < lead.len() {
                assert(spaces[i] == lead[i]);
            } else {
                assert(spaces[i] == tail[i - lead.len()]);
            }
        }
        assert(spaces =~= spaces + Seq::<char>::empty());
        lemma_trimmed_start(spaces, Seq::empty());
        assert(core =~= Seq::<char>::empty());
    }
}

/// Nothing is left of a text exactly where it is nothing but white space.
pub proof fn law_blank(s: Seq<char>)
    ensures
        trimmed(s).len() == 0 <==> all_space(s),
        trimmed_end(s).len() == 0 <==> all_space(s),
    decreases s.len(),
{
    let nothing = Seq::<char>::empty();
    if all_space(s) {
        law_trimmed(s, nothing, nothing);
        lemma_trimmed_end(nothing, s);
        assert(s + nothing + nothing =~= s);
        assert(nothing + s =~= s);
    } else {
        lemma_trimmed_end_keeps(s);
        lemma_trimmed_start_keeps(s);
        lemma_trimmed_end_keeps(trimmed_start(s));
    }
}

proof fn lemma_trimmed_end_keeps(s: Seq<char>)
    requires
        !all_space(s),
    ensures
        trimmed_end(s).len() > 0,
    decreases s.len(),
{
    let i = choose|i: int| 0 <= i < s.len() && !is_space(s[i]);
    if is_space(s.last()) {
        let less = s.drop_last();
        assert(less[i] == s[i]);
        assert(!all_space(less));
        lemma_trimmed_end_keeps(less);
    }
}

proof fn lemma_trimmed_start_keeps(s: Seq<char>)
    requires
        !all_space(s),
    ensures
        !all_space(trimmed_start(s)),
    decreases s.len(),
{
    let i = choose|i: int| 0 <= i < s.len() && !is_space(s[i]);
    if is_space(s[0]) {
        let rest = s.skip(1);
        assert(rest[i - 1] == s[i]);
        assert(!all_space(rest));
        lemma_trimmed_start_keeps(rest);
    }
}

proof fn lemma_up_to_space(word: Seq<char>, rest: Seq<char>)
    requires
        forall|i: int| 0 <= i < word.len() ==> !is_space(#[trigger] word[i]),
        rest.len() > 0 ==> is_space(rest[0]),
    ensures
        up_to_space(word + rest) == word,
    decreases word.len(),
{
    let whole = word + rest;
    if word.len() > 0 {
        assert(whole[0] == word[0]);
        assert(whole.skip(1) =~= word.skip(1) + rest);
        assert forall|i: int| 0 <= i < word.skip(1).len() implies !is_space(
            #[trigger] word.skip(1)[i],
        ) by {
            assert(word.skip(1)[i] == word[i + 1]);
        }
        lemma_up_to_space(word.skip(1), rest);
        assert(seq![word[0]] + word.skip(1) =~= word);
    } else {
        assert(whole =~= rest);
        assert(up_to_space(whole) =~= word);
    }
}

/// The first word of a text is what stands before white space and behind the
/// white space it begins with; white space alone has none.
pub proof fn law_first_word(lead: Seq<char>, word: Seq<char>, rest: Seq<char>)
    requires
        all_space(lead),
        forall|i: int| 0 <= i < word.len() ==> !is_space(#[trigger] word[i]),
        word.len() == 0 ==> rest.len() == 0,
        rest.len() > 0 ==> is_space(rest[0]),
    ensures
        first_word_of(lead + word + rest) == word,
{
    assert(lead + word + rest =~= lead + (word + rest));
    if word.len() > 0 {
        assert((word + rest)[0] == word[0]);
    }
    lemma_trimmed_start(lead, word + rest);
    lemma_up_to_space(word, rest);
}

/// A text is cut at its first separator.
pub proof fn law_cut(head: Seq<char>, c: char, tail: Seq<char>)
    requires
        !head.contains(c),
    ensures
        cut(head + seq![c] + tail, c) == Some((head, tail)),
        cut(head, c) is None,
{
    let whole = head + seq![c] + tail;
    assert forall|i: int| 0 <= i < head.len() implies #[trigger] whole[i] != c by {
        assert(head[i] == whole[i]);
    }
    assert(whole[head.len() as int] == c);
    lemma_position_is(whole, c, head.len() as int);
    assert(whole.take(head.len() as int) =~= head);
    assert(whole.skip(head.len() as int + 1) =~= tail);
    assert forall|i: int| 0 <= i < head.len() implies #[trigger] head[i] != c by {
        assert(head.contains(head[i]));
    }
    lemma_position_is(head, c, head.len() as int);
}

/// Pieces with a separator between each two.
pub open spec fn joined(parts: Seq<Seq<char>>, sep: char) -> Seq<char>
    decreases parts.len(),
{
    if parts.len() == 0 {
        Seq::empty()
    } else if parts.len() == 1 {
        parts[0]
    } else {
        parts[0] + seq![sep] + joined(parts.skip(1), sep)
    }
}

/// The pieces of a text are what joins to it again, and hold no separator.
pub proof fn law_pieces(s: Seq<char>, sep: char)
    ensures
        pieces(s, sep).len() > 0,
        joined(pieces(s, sep), sep) == s,
        forall|i: int| 0 <= i < pieces(s, sep).len() ==> !(#[trigger] pieces(s, sep)[i]).contains(sep),
    decreases s.len(),
{
    lemma_position(s, sep);
    let at = position_of(s, sep);
    let parts = pieces(s, sep);
    if at < s.len() {
        let head = s.take(at);
        let tail = s.skip(at + 1);
        law_pieces(tail, sep);
        assert(parts =~= seq![head] + pieces(tail, sep));
        assert(parts.skip(1) =~= pieces(tail, sep));
        assert(head + seq![sep] + tail =~= s);
        assert forall|i: int| 0 <= i < parts.len() implies !(#[trigger] parts[i]).contains(sep) by {
            if i > 0 {
                assert(parts[i] == pieces(tail, sep)[i - 1]);
            } else {
                assert forall|k: int| 0 <= k < head.len() implies head[k] != sep by {
                    assert(head[k] == s[k]);
                }
            }
        }
    } else {
        assert(parts =~= seq![s]);
        assert forall|k: int| 0 <= k < s.len() implies s[k] != sep by {}
    }
}

/// Text behind one more separator is one more piece.
pub proof fn law_one_more_piece(s: Seq<char>, sep: char, piece: Seq<char>)
    requires
        !piece.contains(sep),
    ensures
        pieces(s + seq![sep] + piece, sep) == pieces(s, sep).push(piece),
        pieces(piece, sep) == seq![piece],
    decreases s.len(),
{
    let whole = s + seq![sep] + piece;
    lemma_position(s, sep);
    let at = position_of(s, sep);
    law_cut(piece, sep, Seq::empty());
    assert(pieces(piece, sep) =~= seq![piece]);
    if at == s.len() {
        assert(!s.contains(sep));
        law_cut(s, sep, piece);
        assert(pieces(whole, sep) =~= pieces(s, sep).push(piece));
    } else {
        let head = s.take(at);
        let rest = s.skip(at + 1);
        assert forall|k: int| 0 <= k < head.len() implies head[k] != sep by {
            assert(head[k] == s[k]);
        }
        assert(!head.contains(sep));
        law_cut(head, sep, rest);
        law_cut(head, sep, rest + seq![sep] + piece);
        assert(s =~= head + seq![sep] + rest);
        assert(whole =~= head + seq![sep] + (rest + seq![sep] + piece));
        law_one_more_piece(rest, sep, piece);
        assert(pieces(whole, sep) =~= pieces(s, sep).push(piece));
    }
}

/// A line ends at a line feed, with or without a carriage return before it,
/// or with the text; a text that ends with a line feed has no line behind it.
pub proof fn law_lines(line: Seq<char>, rest: Seq<char>)
    requires
        !line.contains('\n'),
    ensures
        line.len() == 0 || line.last() != '\r' ==> lines_of(line + seq!['\n'] + rest) == seq![line]
            + lines_of(rest),
        lines_of(line + seq!['\r', '\n'] + rest) == seq![line] + lines_of(rest),
        line.len() > 0 ==> lines_of(line) == seq![line],
        lines_of(Seq::empty()) == Seq::<Seq<char>>::empty(),
{
    law_cut(line, '\n', rest);
    let marked = line.push('\r');
    assert forall|i: int| 0 <= i < marked.len() implies #[trigger] marked[i] != '\n' by {
        if i < line.len() {
            assert(line.contains(line[i]));
        }
    }
    assert(!marked.contains('\n'));
    law_cut(marked, '\n', rest);
    assert(line + seq!['\r', '\n'] + rest =~= marked + seq!['\n'] + rest);
    assert(marked.drop_last() =~= line);
}

/// Whether two texts are alike up to a place at which the first ends, or has
/// the lesser character.
pub open spec fn differs_at(a: Seq<char>, b: Seq<char>, k: int) -> bool {
    &&& 0 <= k <= a.len()
    &&& k < b.len()
    &&& a.take(k) == b.take(k)
    &&& k == a.len() || a[k] < b[k]
}

/// Texts are ordered by the first character in which they differ, a text
/// before what it begins.
pub proof fn law_precedes(a: Seq<char>, b: Seq<char>)
    ensures
        precedes(a, b) <==> exists|k: int| differs_at(a, b, k),
    decreases a.len(),
{
    if b.len() > 0 && a.len() > 0 && a[0] == b[0] {
        let x = a.skip(1);
        let y = b.skip(1);
        law_precedes(x, y);
        if precedes(x, y) {
            let k = choose|k: int| differs_at(x, y, k);
            assert(a.take(k + 1) =~= seq![a[0]] + x.take(k));
            assert(b.take(k + 1) =~= seq![b[0]] + y.take(k));
            if k < x.len() {
                assert(a[k + 1] == x[k]);
            }
            assert(b[k + 1] == y[k]);
            assert(differs_at(a, b, k + 1));
        }
        if exists|k: int| differs_at(a, b, k) {
            let k = choose|k: int| differs_at(a, b, k);
            assert(k > 0);
            assert(x.take(k - 1) =~= a.take(k).skip(1));
            assert(y.take(k - 1) =~= b.take(k).skip(1));
            if k < a.len() {
                assert(a[k] == x[k - 1]);
            }
            assert(b[k] == y[k - 1]);
            assert(differs_at(x, y, k - 1));
        }
    } else if precedes(a, b) {
        assert(a.take(0) =~= b.take(0));
        assert(differs_at(a, b, 0));
    } else if exists|k: int| differs_at(a, b, k) {
        let k = choose|k: int| differs_at(a, b, k);
        if k > 0 {
            assert(a.take(k)[0] == b.take(k)[0]);
        }
    }
}

/// The characters of a string.
pub fn chars_of(s: &str) -> (v: Vec<char>)
    ensures
        v@ == s@,
{
    let mut v: Vec<char> = Vec::new();
    for c in iter: s.chars()
        invariant
            v@ == iter.seq().take(iter.index()),
            iter.seq() == s@,
    {
        v.push(c);
    }
    v
}

/// The string of these characters.
pub fn string_of(s: &[char]) -> (r: String)
    ensures
        r@ == s@,
{
    let mut r = String::new();
    let mut i: usize = 0;
    while i < s.len()
        invariant
            i <= s@.len(),
            r@ == s@.take(i as int),
        decreases s@.len() - i,
    {
        r.push(s[i]);
        i = i + 1;
        assert(s@.take(i as int) =~= s@.take(i - 1).push(s@[i - 1]));
    }
    assert(s@.take(i as int) =~= s@);
    r
}

/// Whether a character is white space.
pub fn is_white(c: char) -> (b: bool)
    ensures
        b == is_space(c),
{
    ('\u{9}' <= c && c <= '\u{d}') || c == ' ' || c == '\u{85}' || c == '\u{a0}' || c == '\u{1680}'
        || ('\u{2000}' <= c && c <= '\u{200a}') || c == '\u{2028}' || c == '\u{2029}' || c
        == '\u{202f}' || c == '\u{205f}' || c == '\u{3000}'
}

/// The first position of `c`, or the length of the text.
pub fn find(s: &[char], c: char) -> (at: usize)
    ensures
        at == position_of(s@, c),
{
    let mut i: usize = 0;
    while i < s.len() && s[i] != c
        invariant
            i <= s@.len(),
            forall|k: int| 0 <= k < i ==> s@[k] != c,
        decreases s@.len() - i,
    {
        i = i + 1;
    }
    proof {
        lemma_position_is(s@, c, i as int);
    }
    i
}

/// Whether `c` stands in the text.
pub fn contains(s: &[char], c: char) -> (b: bool)
    ensures
        b == s@.contains(c),
{
    let at: usize = find(s, c);
    proof {
        lemma_position(s@, c);
        if at < s@.len() {
            assert(s@[at as int] == c);
        }
    }
    at < s.len()
}

/// The text before and the text after the first `c`.
pub fn split_once<'a>(s: &'a [char], c: char) -> (r: Option<(&'a [char], &'a [char])>)
    ensures
        match (r, cut(s@, c)) {
            (Some((head, tail)), Some((before, after))) => head@ == before && tail@ == after,
            (None, None) => true,
            _ => false,
        },
{
    let at: usize = find(s, c);
    proof {
        lemma_position(s@, c);
    }
    if at < s.len() {
        let head = slice_subrange(s, 0, at);
        let tail = slice_subrange(s, at + 1, s.len());
        assert(head@ =~= s@.take(at as int));
        assert(tail@ =~= s@.skip(at + 1));
        Some((head, tail))
    } else {
        None
    }
}

/// The pieces of the text between the `sep` characters.
pub fn split<'a>(s: &'a [char], sep: char) -> (v: Vec<&'a [char]>)
    ensures
        views(v@) == pieces(s@, sep),
        v@.len() >= 1,
{
    let mut v: Vec<&'a [char]> = Vec::new();
    let mut rest: &'a [char] = s;
    loop
        invariant_except_break
            pieces(s@, sep) == views(v@) + pieces(rest@, sep),
        ensures
            views(v@) == pieces(s@, sep),
            v@.len() >= 1,
        decreases rest@.len(),
    {
        let ghost done = v@;
        match split_once(rest, sep) {
            Some((head, tail)) => {
                proof {
                    lemma_position(rest@, sep);
                }
                v.push(head);
                assert(views(v@) =~= views(done).push(head@));
                assert(views(done) + (seq![head@] + pieces(tail@, sep)) =~= views(v@) + pieces(
                    tail@,
                    sep,
                ));
                rest = tail;
            },
            None => {
                v.push(rest);
                assert(views(v@) =~= views(done).push(rest@));
                assert(views(done) + seq![rest@] =~= views(v@));
                break;
            },
        }
    }
    v
}

/// The text without the white space at its start.
pub fn trim_start<'a>(s: &'a [char]) -> (r: &'a [char])
    ensures
        r@ == trimmed_start(s@),
{
    let mut i: usize = 0;
    assert(s@.skip(0) =~= s@);
    while i < s.len() && is_white(s[i])
        invariant
            i <= s@.len(),
            trimmed_start(s@) == trimmed_start(s@.skip(i as int)),
        decreases s@.len() - i,
    {
        assert(s@.skip(i as int).skip(1) =~= s@.skip(i + 1));
        i = i + 1;
    }
    let r = slice_subrange(s, i, s.len());
    assert(r@ =~= s@.skip(i as int));
    r
}

/// The text without the white space at its end.
pub fn trim_end<'a>(s: &'a [char]) -> (r: &'a [char])
    ensures
        r@ == trimmed_end(s@),
{
    let mut n: usize = s.len();
    assert(s@.take(n as int) =~= s@);
    while n > 0 && is_white(s[n - 1])
        invariant
            n <= s@.len(),
            trimmed_end(s@) == trimmed_end(s@.take(n as int)),
        decreases n,
    {
        assert(s@.take(n as int).drop_last() =~= s@.take(n - 1));
        n = n - 1;
    }
    let r = slice_subrange(s, 0, n);
    assert(r@ =~= s@.take(n as int));
    r
}

/// The text without the white space at either end.
pub fn trim<'a>(s: &'a [char]) -> (r: &'a [char])
    ensures
        r@ == trimmed(s@),
{
    trim_end(trim_start(s))
}

/// The first word of the text.
pub fn first_word<'a>(s: &'a [char]) -> (r: &'a [char])
    ensures
        r@ == first_word_of(s@),
{
    let t = trim_start(s);
    let mut i: usize = 0;
    assert(t@.skip(0) =~= t@);
    while i < t.len() && !is_white(t[i])
        invariant
            i <= t@.len(),
            up_to_space(t@) =~= t@.take(i as int) + up_to_space(t@.skip(i as int)),
        decreases t@.len() - i,
    {
        assert(t@.skip(i as int).skip(1) =~= t@.skip(i + 1));
        assert(t@.take(i + 1) =~= t@.take(i as int) + seq![t@[i as int]]);
        i = i + 1;
    }
    let r = slice_subrange(t, 0, i);
    assert(r@ =~= t@.take(i as int));
    r
}

/// The lines of the text.
pub fn lines<'a>(s: &'a [char]) -> (v: Vec<&'a [char]>)
    ensures
        views(v@) == lines_of(s@),
{
    let mut v: Vec<&'a [char]> = Vec::new();
    let mut rest: &'a [char] = s;
    while rest.len() > 0
        invariant
            lines_of(s@) == views(v@) + lines_of(rest@),
        decreases rest@.len(),
    {
        let ghost done = v@;
        match split_once(rest, '\n') {
            Some((head, tail)) => {
                proof {
                    lemma_position(rest@, '\n');
                }
                let line = if head.len() > 0 && head[head.len() - 1] == '\r' {
                    slice_subrange(head, 0, head.len() - 1)
                } else {
                    head
                };
                assert(line@ =~= without_return(head@));
                v.push(line);
                assert(views(v@) =~= views(done).push(line@));
                assert(views(done) + (seq![line@] + lines_of(tail@)) =~= views(v@) + lines_of(
                    tail@,
                ));
                rest = tail;
            },
            None => {
                v.push(rest);
                assert(views(v@) =~= views(done).push(rest@));
                assert(views(done) + seq![rest@] =~= views(v@));
                rest = slice_subrange(rest, 0, 0);
                assert(views(v@) + lines_of(rest@) =~= views(v@));
            },
        }
    }
    assert(views(v@) + lines_of(rest@) =~= views(v@));
    v
}

/// Whether two texts are the same.
pub fn same(a: &[char], b: &[char]) -> (r: bool)
    ensures
        r == (a@ == b@),
{
    if a.len() != b.len() {
        return false;
    }
    let mut i: usize = 0;
    while i < a.len()
        invariant
            i <= a@.len(),
            a@.len() == b@.len(),
            forall|k: int| 0 <= k < i ==> a@[k] == b@[k],
        decreases a@.len() - i,
    {
        if a[i] != b[i] {
            return false;
        }
        i = i + 1;
    }
    assert(a@ =~= b@);
    true
}

/// Whether the text is exactly `word`.
pub fn is_word(s: &[char], word: &str) -> (r: bool)
    ensures
        r == (s@ == word@),
{
    let w = chars_of(word);
    same(s, w.as_slice())
}

/// Whether the text begins with `word`.
pub fn starts_with(s: &[char], word: &str) -> (r: bool)
    ensures
        r == word@.is_prefix_of(s@),
{
    let w = chars_of(word);
    if s.len() < w.len() {
        return false;
    }
    let head = slice_subrange(s, 0, w.len());
    same(w.as_slice(), head)
}

/// Whether `a` comes before `b` in the order of text.
pub fn comes_before(a: &[char], b: &[char]) -> (r: bool)
    ensures
        r == precedes(a@, b@),
{
    let mut i: usize = 0;
    assert(a@.skip(0) =~= a@ && b@.skip(0) =~= b@);
    while i < a.len() && i < b.len() && a[i] == b[i]
        invariant
            i <= a@.len(),
            i <= b@.len(),
            precedes(a@, b@) == precedes(a@.skip(i as int), b@.skip(i as int)),
        decreases a@.len() - i,
    {
        assert(a@.skip(i as int).skip(1) =~= a@.skip(i + 1));
        assert(b@.skip(i as int).skip(1) =~= b@.skip(i + 1));
        i = i + 1;
    }
    if i >= b.len() {
        false
    } else if i >= a.len() {
        true
    } else {
        a[i] < b[i]
    }
}

}
