//! Text as sequences of characters: white space, trimming, splitting and lines.
//!
//! The models, most of them named like the function with the suffix `_of`, speak of
//! `Seq<char>`, so that contracts elsewhere can be stated over them.
use vstd::prelude::*;

verus! {

/// Whether `c` has the Unicode property `White_Space`.
pub open spec fn white_space(c: char) -> bool {
    let u = c as u32;
    ||| 0x09 <= u <= 0x0d
    ||| u == 0x20
    ||| u == 0x85
    ||| u == 0xa0
    ||| u == 0x1680
    ||| 0x2000 <= u <= 0x200a
    ||| u == 0x2028
    ||| u == 0x2029
    ||| u == 0x202f
    ||| u == 0x205f
    ||| u == 0x3000
}

/// Tells whether `c` is white space, as Unicode has it.
pub fn is_white_space(c: char) -> (yes: bool)
    ensures
        yes == white_space(c),
{
    let u: u32 = c as u32;
    (0x09 <= u && u <= 0x0d) || u == 0x20 || u == 0x85 || u == 0xa0 || u == 0x1680 || (0x2000 <= u
        && u <= 0x200a) || u == 0x2028 || u == 0x2029 || u == 0x202f || u == 0x205f || u == 0x3000
}

/// What a text is split at.
#[derive(Clone, Copy)]
pub enum Separator {
    /// Each occurrence of one character.
    Char(char),
    /// Each white space character.
    WhiteSpace,
}

impl Separator {
    /// Whether `c` separates.
    pub open spec fn separates(self, c: char) -> bool {
        match self {
            Separator::Char(x) => c == x,
            Separator::WhiteSpace => white_space(c),
        }
    }

    /// Tells whether `c` separates.
    pub fn matches(&self, c: char) -> (yes: bool)
        ensures
            yes == self.separates(c),
    {
        match self {
            Separator::Char(x) => c == *x,
            Separator::WhiteSpace => is_white_space(c),
        }
    }
}

/// The pieces between separators, empty ones included: read from the left, a
/// separator opens a new piece, and any other character extends the last one.
pub open spec fn split_of(s: Seq<char>, sep: Separator) -> Seq<Seq<char>>
    decreases s.len(),
{
    if s.len() == 0 {
        seq![Seq::empty()]
    } else {
        let before = split_of(s.drop_last(), sep);
        if sep.separates(s.last()) {
            before.push(Seq::empty())
        } else {
            before.drop_last().push(before.last().push(s.last()))
        }
    }
}

/// The pieces between separators that are not empty.
pub open spec fn fields_of(s: Seq<char>, sep: Separator) -> Seq<Seq<char>> {
    split_of(s, sep).filter(|piece: Seq<char>| piece.len() > 0)
}

/// `s` without its leading white space.
pub open spec fn trim_start_of(s: Seq<char>) -> Seq<char>
    decreases s.len(),
{
    if s.len() > 0 && white_space(s[0]) {
        trim_start_of(s.drop_first())
    } else {
        s
    }
}

/// `s` without its trailing white space.
pub open spec fn trim_end_of(s: Seq<char>) -> Seq<char>
    decreases s.len(),
{
    if s.len() > 0 && white_space(s.last()) {
        trim_end_of(s.drop_last())
    } else {
        s
    }
}

/// `s` without its leading and trailing white space.
pub open spec fn trim_of(s: Seq<char>) -> Seq<char> {
    trim_end_of(trim_start_of(s))
}

/// `s` without one carriage return at its end, where it has one.
pub open spec fn without_cr(s: Seq<char>) -> Seq<char> {
    if s.len() > 0 && s.last() == '\r' {
        s.drop_last()
    } else {
        s
    }
}

/// The lines of a text, without their endings. A line ends in a line feed, with
/// or without a carriage return before it; the last one may lack its ending.
pub open spec fn lines_of(s: Seq<char>) -> Seq<Seq<char>> {
    let pieces = split_of(s, Separator::Char('\n'));
    let ended = pieces.drop_last().map_values(|piece: Seq<char>| without_cr(piece));
    if pieces.last().len() == 0 {
        ended
    } else {
        ended.push(pieces.last())
    }
}

/// What the slices of a list hold.
pub open spec fn contents(list: Seq<&str>) -> Seq<Seq<char>> {
    list.map_values(|piece: &str| piece@)
}

proof fn lemma_contents(list: Seq<&str>)
    ensures
        contents(list).len() == list.len(),
        forall|i: int| 0 <= i < list.len() ==> (#[trigger] list[i])@ == contents(list)[i],
{
}

/// Collects the characters of `text`.
pub fn characters(text: &str) -> (chars: Vec<char>)
    ensures
        chars@ == text@,
{
    let mut chars: Vec<char> = Vec::new();
    for c in it: text.chars()
        invariant
            it.seq() == text@,
            chars@ == text@.take(it.index() as int),
    {
        chars.push(c);
    }
    chars
}

/// Tells whether two texts are the same.
pub fn same(a: &str, b: &str) -> (yes: bool)
    ensures
        yes == (a@ == b@),
{
    let x = characters(a);
    let y = characters(b);
    if x.len() != y.len() {
        return false;
    }
    for i in 0..x.len()
        invariant
            x@ == a@,
            y@ == b@,
            x.len() == y.len(),
            forall|j: int| 0 <= j < i ==> x@[j] == y@[j],
    {
        if x[i] != y[i] {
            return false;
        }
    }
    assert(a@ =~= b@);
    true
}

/// Returns what follows `prefix` in `text`, where `text` starts with it.
pub fn strip_prefix<'a>(text: &'a str, prefix: &str) -> (rest: Option<&'a str>)
    ensures
        rest is Some <==> prefix@.is_prefix_of(text@),
        rest matches Some(r) ==> r@ == text@.skip(prefix@.len() as int),
{
    let n: usize = prefix.unicode_len();
    let m: usize = text.unicode_len();
    if n <= m && same(text.substring_char(0, n), prefix) {
        Some(text.substring_char(n, m))
    } else {
        None
    }
}

/// Splits `text` at each separator.
pub fn split<'a>(text: &'a str, sep: Separator) -> (pieces: Vec<&'a str>)
    ensures
        contents(pieces@) == split_of(text@, sep),
        pieces@.len() == split_of(text@, sep).len(),
        forall|i: int| 0 <= i < pieces@.len() ==> (#[trigger] pieces@[i])@ == split_of(text@, sep)[i],
{
    let chars = characters(text);
    let n: usize = chars.len();
    let mut pieces: Vec<&'a str> = Vec::new();
    let mut start: usize = 0;
    assert(contents(pieces@).push(text@.subrange(0, 0)) =~~= seq![Seq::<char>::empty()]);
    for i in 0..n
        invariant
            chars@ == text@,
            n == chars.len(),
            start <= i,
            split_of(text@.take(i as int), sep) == contents(pieces@).push(
                text@.subrange(start as int, i as int),
            ),
    {
        proof {
            assert(text@.take(i + 1).drop_last() == text@.take(i as int));
            assert(text@.subrange(start as int, i + 1) == text@.subrange(
                start as int,
                i as int,
            ).push(text@[i as int]));
            assert(contents(pieces@).push(text@.subrange(start as int, i as int)).drop_last()
                == contents(pieces@));
        }
        if sep.matches(chars[i]) {
            let ghost before = pieces@;
            pieces.push(text.substring_char(start, i));
            assert(contents(pieces@) == contents(before).push(
                text@.subrange(start as int, i as int),
            ));
            start = i + 1;
            assert(text@.subrange(i + 1, i + 1) == Seq::<char>::empty());
        }
    }
    let ghost before = pieces@;
    pieces.push(text.substring_char(start, n));
    proof {
        assert(text@.take(n as int) == text@);
        assert(contents(pieces@) == contents(before).push(text@.subrange(start as int, n as int)));
        lemma_contents(pieces@);
    }
    pieces
}

/// Splits `text` at each separator and keeps the pieces that are not empty.
pub fn fields<'a>(text: &'a str, sep: Separator) -> (kept: Vec<&'a str>)
    ensures
        contents(kept@) == fields_of(text@, sep),
        kept@.len() == fields_of(text@, sep).len(),
        forall|i: int| 0 <= i < kept@.len() ==> (#[trigger] kept@[i])@ == fields_of(text@, sep)[i],
{
    let pieces = split(text, sep);
    let ghost all = split_of(text@, sep);
    let ghost full = |piece: Seq<char>| piece.len() > 0;
    let mut kept: Vec<&'a str> = Vec::new();
    for i in 0..pieces.len()
        invariant
            all == contents(pieces@),
            full == (|piece: Seq<char>| piece.len() > 0),
            contents(kept@) == all.take(i as int).filter(full),
    {
        let ghost before = kept@;
        proof {
            assert(all.take(i + 1).drop_last() == all.take(i as int));
            assert(all.take(i + 1).last() == pieces@[i as int]@);
            reveal(Seq::filter);
        }
        if !pieces[i].is_empty() {
            kept.push(pieces[i]);
            assert(contents(kept@) == contents(before).push(pieces@[i as int]@));
        }
    }
    proof {
        assert(all.take(pieces.len() as int) == all);
        lemma_contents(kept@);
    }
    kept
}

/// Drops the white space at both ends of `text`.
pub fn trim<'a>(text: &'a str) -> (rest: &'a str)
    ensures
        rest@ == trim_of(text@),
{
    let chars = characters(text);
    let n: usize = chars.len();
    let mut from: usize = 0;
    assert(text@.skip(0) == text@);
    while from < n && is_white_space(chars[from])
        invariant
            chars@ == text@,
            n == chars.len(),
            from <= n,
            trim_start_of(text@) == trim_start_of(text@.skip(from as int)),
        decreases n - from,
    {
        assert(text@.skip(from as int).drop_first() == text@.skip(from + 1));
        from += 1;
    }
    let mut to: usize = n;
    assert(text@.skip(from as int) == text@.subrange(from as int, n as int));
    while from < to && is_white_space(chars[to - 1])
        invariant
            chars@ == text@,
            n == chars.len(),
            from <= to <= n,
            trim_of(text@) == trim_end_of(text@.subrange(from as int, to as int)),
        decreases to - from,
    {
        assert(text@.subrange(from as int, to as int).drop_last() == text@.subrange(
            from as int,
            to - 1,
        ));
        to -= 1;
    }
    text.substring_char(from, to)
}

/// Drops one carriage return at the end of `line`, where there is one.
fn strip_cr<'a>(line: &'a str) -> (rest: &'a str)
    ensures
        rest@ == without_cr(line@),
{
    let n: usize = line.unicode_len();
    if n > 0 && line.get_char(n - 1) == '\r' {
        line.substring_char(0, n - 1)
    } else {
        line
    }
}

/// Splits `text` into its lines, without their endings.
pub fn lines<'a>(text: &'a str) -> (list: Vec<&'a str>)
    ensures
        contents(list@) == lines_of(text@),
        list@.len() == lines_of(text@).len(),
        forall|i: int| 0 <= i < list@.len() ==> (#[trigger] list@[i])@ == lines_of(text@)[i],
{
    let pieces = split(text, Separator::Char('\n'));
    proof {
        lemma_split_not_empty(text@, Separator::Char('\n'));
    }
    let ghost all = split_of(text@, Separator::Char('\n'));
    assert(all.len() == pieces.len());
    let ghost ended = all.drop_last().map_values(|piece: Seq<char>| without_cr(piece));
    let last: usize = pieces.len() - 1;
    let mut list: Vec<&'a str> = Vec::new();
    for i in 0..last
        invariant
            all == contents(pieces@),
            last == pieces.len() - 1,
            ended == all.drop_last().map_values(|piece: Seq<char>| without_cr(piece)),
            contents(list@) == ended.take(i as int),
    {
        let ghost before = list@;
        list.push(strip_cr(pieces[i]));
        assert(contents(list@) == contents(before).push(without_cr(pieces@[i as int]@)));
        assert(ended.take(i + 1) == ended.take(i as int).push(without_cr(all[i as int])));
    }
    assert(ended.take(last as int) == ended);
    if !pieces[last].is_empty() {
        let ghost before = list@;
        list.push(pieces[last]);
        assert(contents(list@) == contents(before).push(pieces@[last as int]@));
    }
    proof {
        lemma_contents(list@);
    }
    list
}

/// Whether the characters from `a` up to `b` form a whole piece of `s`: none of
/// them separates, and each end of the range is an end of `s` or lies at a
/// separator.
pub open spec fn delimited(s: Seq<char>, sep: Separator, a: int, b: int) -> bool {
    &&& 0 <= a <= b <= s.len()
    &&& forall|i: int| a <= i < b ==> !sep.separates(#[trigger] s[i])
    &&& a == 0 || sep.separates(s[a - 1])
    &&& b == s.len() || sep.separates(s[b])
}

proof fn lemma_split_not_empty(s: Seq<char>, sep: Separator)
    ensures
        split_of(s, sep).len() > 0,
    decreases s.len(),
{
    if s.len() > 0 {
        lemma_split_not_empty(s.drop_last(), sep);
    }
}

/// Each piece is a delimited range, and the last one alone reaches the end.
proof fn lemma_piece_is_delimited(s: Seq<char>, sep: Separator, k: int) -> (range: (int, int))
    requires
        0 <= k < split_of(s, sep).len(),
    ensures
        delimited(s, sep, range.0, range.1),
        split_of(s, sep)[k] == s.subrange(range.0, range.1),
        k == split_of(s, sep).len() - 1 <==> range.1 == s.len(),
    decreases s.len(),
{
    if s.len() == 0 {
        assert(s.subrange(0, 0) == Seq::<char>::empty());
        (0, 0)
    } else {
        let t = s.drop_last();
        let n = s.len() as int;
        lemma_split_not_empty(t, sep);
        let before = split_of(t, sep);
        if sep.separates(s.last()) {
            if k == before.len() {
                assert(s.subrange(n, n) == Seq::<char>::empty());
                (n, n)
            } else {
                let (a, b) = lemma_piece_is_delimited(t, sep, k);
                assert(s.subrange(a, b) == t.subrange(a, b));
                assert forall|i: int| a <= i < b implies !sep.separates(#[trigger] s[i]) by {
                    assert(s[i] == t[i]);
                }
                (a, b)
            }
        } else {
            let (a, b) = lemma_piece_is_delimited(t, sep, k);
            assert forall|i: int| a <= i < b implies !sep.separates(#[trigger] s[i]) by {
                assert(s[i] == t[i]);
            }
            if k == before.len() - 1 {
                assert(s.subrange(a, n) == t.subrange(a, b).push(s.last()));
                (a, n)
            } else {
                assert(s.subrange(a, b) == t.subrange(a, b));
                (a, b)
            }
        }
    }
}

/// Each delimited range is a piece, and one that reaches the end is the last.
proof fn lemma_delimited_is_piece(s: Seq<char>, sep: Separator, a: int, b: int) -> (k: int)
    requires
        delimited(s, sep, a, b),
    ensures
        0 <= k < split_of(s, sep).len(),
        split_of(s, sep)[k] == s.subrange(a, b),
        b == s.len() ==> k == split_of(s, sep).len() - 1,
        b < s.len() ==> k < split_of(s, sep).len() - 1,
    decreases s.len(),
{
    if s.len() == 0 {
        assert(s.subrange(0, 0) == Seq::<char>::empty());
        0
    } else {
        let t = s.drop_last();
        let n = s.len() as int;
        lemma_split_not_empty(t, sep);
        let before = split_of(t, sep);
        if b < n {
            assert forall|i: int| a <= i < b implies !sep.separates(#[trigger] t[i]) by {
                assert(s[i] == t[i]);
            }
            assert(s.subrange(a, b) == t.subrange(a, b));
            lemma_delimited_is_piece(t, sep, a, b)
        } else if sep.separates(s.last()) {
            assert(a == n) by {
                if a < n {
                    assert(!sep.separates(s[n - 1]));
                }
            }
            assert(s.subrange(n, n) == Seq::<char>::empty());
            before.len() as int
        } else {
            assert(a < n);
            assert forall|i: int| a <= i < n - 1 implies !sep.separates(#[trigger] t[i]) by {
                assert(s[i] == t[i]);
            }
            let k = lemma_delimited_is_piece(t, sep, a, n - 1);
            assert(s.subrange(a, n) == t.subrange(a, n - 1).push(s.last()));
            k
        }
    }
}

/// A word is one of the fields exactly where it stands in the text as a whole
/// piece: never as part of a longer one.
pub proof fn law_fields_are_whole_pieces(s: Seq<char>, sep: Separator, word: Seq<char>)
    ensures
        fields_of(s, sep).contains(word) <==> word.len() > 0 && exists|a: int, b: int|
            #[trigger] delimited(s, sep, a, b) && word == s.subrange(a, b),
{
    let all = split_of(s, sep);
    let full = |piece: Seq<char>| piece.len() > 0;
    broadcast use vstd::seq_lib::group_filter_ensures;

    if fields_of(s, sep).contains(word) {
        let j = choose|j: int| 0 <= j < fields_of(s, sep).len() && fields_of(s, sep)[j] == word;
        assert(full(all.filter(full)[j]));
        all.lemma_filter_contains_rev(full, word);
        let k = choose|k: int| 0 <= k < all.len() && all[k] == word;
        let (a, b) = lemma_piece_is_delimited(s, sep, k);
        assert(delimited(s, sep, a, b) && word == s.subrange(a, b));
    }
    if word.len() > 0 && exists|a: int, b: int|
        #[trigger] delimited(s, sep, a, b) && word == s.subrange(a, b) {
        let (a, b) = choose|a: int, b: int|
            #[trigger] delimited(s, sep, a, b) && word == s.subrange(a, b);
        let k = lemma_delimited_is_piece(s, sep, a, b);
        assert(all[k] == word && full(word));
    }
}

proof fn lemma_split_at_separator(s: Seq<char>, sep: Separator, c: char, t: Seq<char>)
    requires
        sep.separates(c),
    ensures
        split_of(s.push(c) + t, sep) == split_of(s, sep) + split_of(t, sep),
    decreases t.len(),
{
    let left = split_of(s, sep);
    if t.len() == 0 {
        assert(s.push(c) + t == s.push(c));
        assert(s.push(c).drop_last() == s);
    } else {
        lemma_split_at_separator(s, sep, c, t.drop_last());
        lemma_split_not_empty(t.drop_last(), sep);
        let right = split_of(t.drop_last(), sep);
        assert((s.push(c) + t).drop_last() == s.push(c) + t.drop_last());
        assert((left + right).drop_last() == left + right.drop_last());
        assert(split_of(s.push(c) + t, sep) =~= left + split_of(t, sep));
    }
}

/// The fields on the two sides of a separator are found independently of each
/// other. So separators at the ends of a text, and repeated ones, change nothing.
pub proof fn law_fields_at_separator(s: Seq<char>, sep: Separator, c: char, t: Seq<char>)
    requires
        sep.separates(c),
    ensures
        fields_of(s.push(c) + t, sep) == fields_of(s, sep) + fields_of(t, sep),
{
    lemma_split_at_separator(s, sep, c, t);
    Seq::filter_distributes_over_add(
        split_of(s, sep),
        split_of(t, sep),
        |piece: Seq<char>| piece.len() > 0,
    );
}

/// No separator occurs in a field, and no field is empty.
pub proof fn law_fields_hold_no_separator(s: Seq<char>, sep: Separator, k: int)
    requires
        0 <= k < fields_of(s, sep).len(),
    ensures
        fields_of(s, sep)[k].len() > 0,
        forall|i: int|
            0 <= i < fields_of(s, sep)[k].len() ==> !sep.separates(
                #[trigger] fields_of(s, sep)[k][i],
            ),
{
    let word = fields_of(s, sep)[k];
    assert(fields_of(s, sep).contains(word));
    law_fields_are_whole_pieces(s, sep, word);
    let (a, b) = choose|a: int, b: int|
        #[trigger] delimited(s, sep, a, b) && word == s.subrange(a, b);
    assert forall|i: int| 0 <= i < word.len() implies !sep.separates(#[trigger] word[i]) by {
        assert(word[i] == s[a + i]);
    }
}

/// A line that ends in a line feed is found independently of what follows it.
pub proof fn law_lines_at_line_feed(line: Seq<char>, rest: Seq<char>)
    requires
        !line.contains('\n'),
    ensures
        lines_of(line.push('\n') + rest) == seq![without_cr(line)] + lines_of(rest),
{
    let sep = Separator::Char('\n');
    lemma_split_at_separator(line, sep, '\n', rest);
    lemma_split_not_empty(rest, sep);
    lemma_unsplit(line, sep);
    let after = split_of(rest, sep);
    assert(split_of(line, sep) == seq![line]);
    assert((seq![line] + after).drop_last() == seq![line] + after.drop_last());
    assert(lines_of(line.push('\n') + rest) =~= seq![without_cr(line)] + lines_of(rest));
}

proof fn lemma_unsplit(s: Seq<char>, sep: Separator)
    requires
        forall|i: int| 0 <= i < s.len() ==> !sep.separates(#[trigger] s[i]),
    ensures
        split_of(s, sep) == seq![s],
    decreases s.len(),
{
    if s.len() > 0 {
        let t = s.drop_last();
        assert forall|i: int| 0 <= i < t.len() implies !sep.separates(#[trigger] t[i]) by {
            assert(t[i] == s[i]);
        }
        lemma_unsplit(t, sep);
        assert(t.push(s.last()) == s);
        assert(split_of(s, sep) =~= seq![s]);
    } else {
        assert(s == Seq::<char>::empty());
    }
}

/// A character separates exactly where it is the one split at, or, where the split
/// is at white space, where it is white space.
pub proof fn law_separators(x: char, c: char)
    ensures
        Separator::Char(x).separates(c) <==> c == x,
        Separator::WhiteSpace.separates(c) <==> white_space(c),
{
}

/// `pieces` one after another, with `x` between each two.
pub open spec fn joined(pieces: Seq<Seq<char>>, x: char) -> Seq<char>
    decreases pieces.len(),
{
    if pieces.len() == 0 {
        Seq::empty()
    } else if pieces.len() == 1 {
        pieces[0]
    } else {
        joined(pieces.drop_last(), x).push(x) + pieces.last()
    }
}

/// Splitting at a character loses nothing: put together again with that character
/// between them, the pieces give the text, and it occurs in none of them.
pub proof fn law_split_rejoins(s: Seq<char>, x: char)
    ensures
        split_of(s, Separator::Char(x)).len() >= 1,
        joined(split_of(s, Separator::Char(x)), x) == s,
        forall|k: int|
            0 <= k < split_of(s, Separator::Char(x)).len() ==> !(#[trigger] split_of(
                s,
                Separator::Char(x),
            )[k]).contains(x),
    decreases s.len(),
{
    let sep = Separator::Char(x);
    let pieces = split_of(s, sep);
    lemma_split_not_empty(s, sep);
    assert forall|k: int| 0 <= k < pieces.len() implies !(#[trigger] pieces[k]).contains(x) by {
        let (a, b) = lemma_piece_is_delimited(s, sep, k);
        if pieces[k].contains(x) {
            let i = choose|i: int| 0 <= i < pieces[k].len() && pieces[k][i] == x;
            assert(s[a + i] == x);
        }
    }
    if s.len() == 0 {
        assert(joined(pieces, x) =~= s);
    } else {
        let t = s.drop_last();
        let before = split_of(t, sep);
        law_split_rejoins(t, x);
        assert(s == t.push(s.last()));
        if s.last() == x {
            assert(pieces.drop_last() =~= before);
            assert(joined(pieces, x) =~= s);
        } else {
            assert(pieces.drop_last() =~= before.drop_last());
            assert(pieces.last() =~= before.last().push(s.last()));
            if before.len() == 1 {
                assert(joined(pieces, x) =~= s);
            } else {
                assert(joined(before, x) == joined(before.drop_last(), x).push(x) + before.last());
                assert(joined(pieces, x) =~= s);
            }
        }
    }
}

/// Splitting at white space takes the two sides of each white space character
/// apart.
pub proof fn law_split_at_white_space(s: Seq<char>, c: char, t: Seq<char>)
    requires
        white_space(c),
    ensures
        split_of(s.push(c) + t, Separator::WhiteSpace) == split_of(s, Separator::WhiteSpace)
            + split_of(t, Separator::WhiteSpace),
        fields_of(s.push(c) + t, Separator::WhiteSpace) == fields_of(s, Separator::WhiteSpace)
            + fields_of(t, Separator::WhiteSpace),
{
    lemma_split_at_separator(s, Separator::WhiteSpace, c, t);
    law_fields_at_separator(s, Separator::WhiteSpace, c, t);
}

/// A text without white space is one piece, and one field unless it is empty.
pub proof fn law_no_white_space_no_split(s: Seq<char>)
    requires
        forall|i: int| 0 <= i < s.len() ==> !white_space(#[trigger] s[i]),
    ensures
        split_of(s, Separator::WhiteSpace) == seq![s],
        fields_of(s, Separator::WhiteSpace) == if s.len() == 0 {
            Seq::empty()
        } else {
            seq![s]
        },
{
    lemma_unsplit(s, Separator::WhiteSpace);
    lemma_lone_field(s, Separator::WhiteSpace);
}

/// The fields between the occurrences of a character are found independently of
/// each other, in their order; a text without it is one field unless it is empty.
pub proof fn law_fields_between(x: char, s: Seq<char>, t: Seq<char>)
    ensures
        fields_of(s.push(x) + t, Separator::Char(x)) == fields_of(s, Separator::Char(x))
            + fields_of(t, Separator::Char(x)),
        !s.contains(x) ==> fields_of(s, Separator::Char(x)) == if s.len() == 0 {
            Seq::empty()
        } else {
            seq![s]
        },
{
    law_fields_at_separator(s, Separator::Char(x), x, t);
    if !s.contains(x) {
        assert forall|i: int| 0 <= i < s.len() implies !Separator::Char(x).separates(
            #[trigger] s[i],
        ) by {
            assert(s.contains(s[i]));
        }
        lemma_unsplit(s, Separator::Char(x));
        lemma_lone_field(s, Separator::Char(x));
    }
}

proof fn lemma_lone_field(s: Seq<char>, sep: Separator)
    requires
        split_of(s, sep) == seq![s],
    ensures
        fields_of(s, sep) == if s.len() == 0 {
            Seq::empty()
        } else {
            seq![s]
        },
{
    reveal_with_fuel(Seq::filter, 2);
    let all = seq![s];
    assert(all.drop_last() =~= Seq::<Seq<char>>::empty());
    assert(all.last() == s);
    assert(fields_of(s, sep) =~= if s.len() == 0 {
        Seq::empty()
    } else {
        seq![s]
    });
}

/// A line feed ends a line, and so does a carriage return with a line feed behind
/// it; what follows is read on its own. A text without a line feed is one line,
/// unless it is empty.
pub proof fn law_line_endings(line: Seq<char>, rest: Seq<char>)
    requires
        !line.contains('\n'),
    ensures
        !(line.len() > 0 && line.last() == '\r') ==> lines_of(line.push('\n') + rest) == seq![line]
            + lines_of(rest),
        lines_of(line.push('\r').push('\n') + rest) == seq![line] + lines_of(rest),
        lines_of(line) == if line.len() == 0 {
            Seq::empty()
        } else {
            seq![line]
        },
{
    law_lines_at_line_feed(line, rest);
    let with_cr = line.push('\r');
    assert(!with_cr.contains('\n')) by {
        if with_cr.contains('\n') {
            let i = choose|i: int| 0 <= i < with_cr.len() && with_cr[i] == '\n';
            assert(line[i] == '\n');
        }
    }
    law_lines_at_line_feed(with_cr, rest);
    assert(without_cr(with_cr) =~= line);
    let sep = Separator::Char('\n');
    assert forall|i: int| 0 <= i < line.len() implies !sep.separates(#[trigger] line[i]) by {
        assert(line.contains(line[i]));
    }
    lemma_unsplit(line, sep);
    assert(lines_of(line) =~= if line.len() == 0 {
        Seq::empty()
    } else {
        seq![line]
    });
}

/// Trimming takes away white space and nothing else, from the ends and nowhere
/// else, and leaves none there.
pub proof fn law_trim(s: Seq<char>) -> (range: (int, int))
    ensures
        0 <= range.0 <= range.1 <= s.len(),
        trim_of(s) == s.subrange(range.0, range.1),
        forall|i: int| 0 <= i < range.0 || range.1 <= i < s.len() ==> white_space(#[trigger] s[i]),
        trim_of(s).len() > 0 ==> !white_space(trim_of(s)[0]) && !white_space(trim_of(s).last()),
{
    let a = lemma_trim_start(s);
    let t = trim_start_of(s);
    let b = lemma_trim_end(t);
    assert(trim_of(s) == s.subrange(a, a + b));
    assert forall|i: int| 0 <= i < a || a + b <= i < s.len() implies white_space(
        #[trigger] s[i],
    ) by {
        if i >= a {
            assert(s[i] == t[i - a]);
        }
    }
    (a, a + b)
}

proof fn lemma_trim_start(s: Seq<char>) -> (a: int)
    ensures
        0 <= a <= s.len(),
        trim_start_of(s) == s.skip(a),
        forall|i: int| 0 <= i < a ==> white_space(#[trigger] s[i]),
        a < s.len() ==> !white_space(s[a]),
    decreases s.len(),
{
    if s.len() > 0 && white_space(s[0]) {
        let t = s.drop_first();
        let b = lemma_trim_start(t);
        assert(t.skip(b) == s.skip(b + 1));
        assert forall|i: int| 0 <= i < b + 1 implies white_space(#[trigger] s[i]) by {
            if i > 0 {
                assert(s[i] == t[i - 1]);
            }
        }
        b + 1
    } else {
        assert(s.skip(0) == s);
        0
    }
}

proof fn lemma_trim_end(s: Seq<char>) -> (b: int)
    ensures
        0 <= b <= s.len(),
        trim_end_of(s) == s.take(b),
        forall|i: int| b <= i < s.len() ==> white_space(#[trigger] s[i]),
        b > 0 ==> !white_space(s[b - 1]),
    decreases s.len(),
{
    if s.len() > 0 && white_space(s.last()) {
        let t = s.drop_last();
        let b = lemma_trim_end(t);
        assert(t.take(b) == s.take(b));
        assert forall|i: int| b <= i < s.len() implies white_space(#[trigger] s[i]) by {
            if i < t.len() {
                assert(s[i] == t[i]);
            }
        }
        b
    } else {
        assert(s.take(s.len() as int) == s);
        s.len() as int
    }
}

/// White space at the end makes no difference to a trimmed text.
pub proof fn law_trim_ignores_end(s: Seq<char>)
    requires
        s.len() > 0,
        white_space(s.last()),
    ensures
        trim_of(s.drop_last()) == trim_of(s),
{
    let t = s.drop_last();
    let a = lemma_trim_start(s);
    let b = lemma_trim_start(t);
    if b < t.len() {
        lemma_trim_start_extends(t, s.last());
        assert(t.push(s.last()) == s);
        assert(trim_start_of(s).drop_last() == trim_start_of(t));
    } else {
        assert forall|i: int| 0 <= i < s.len() implies white_space(#[trigger] s[i]) by {
            if i < t.len() {
                assert(s[i] == t[i]);
            }
        }
        law_trim_to_nothing(s);
        law_trim_to_nothing(t);
    }
}

proof fn lemma_trim_start_extends(s: Seq<char>, c: char)
    requires
        trim_start_of(s).len() > 0,
    ensures
        trim_start_of(s.push(c)) == trim_start_of(s).push(c),
    decreases s.len(),
{
    if s.len() > 0 && white_space(s[0]) {
        lemma_trim_start_extends(s.drop_first(), c);
        assert(s.push(c).drop_first() == s.drop_first().push(c));
    }
}

/// Trimming leaves nothing exactly where there is nothing but white space.
pub proof fn law_trim_to_nothing(s: Seq<char>)
    ensures
        trim_of(s).len() == 0 <==> forall|i: int| 0 <= i < s.len() ==> white_space(#[trigger] s[i]),
{
    let (a, b) = law_trim(s);
    if trim_of(s).len() > 0 {
        assert(trim_of(s)[0] == s[a]);
    }
}

} // verus!
