//! Text as sequences of characters: trimming, cutting at a separator, and the
//! way from and to strings.

use vstd::prelude::*;

verus! {

/// Whether `c` is white space as Unicode defines it (the property
/// `White_Space`).
pub open spec fn is_whitespace(c: char) -> bool {
    let u = c as u32;
    ||| 0x09 <= u <= 0x0D
    ||| u == 0x20
    ||| u == 0x85
    ||| u == 0xA0
    ||| u == 0x1680
    ||| 0x2000 <= u <= 0x200A
    ||| u == 0x2028
    ||| u == 0x2029
    ||| u == 0x202F
    ||| u == 0x205F
    ||| u == 0x3000
}

/// `s` without the white space it starts with.
pub open spec fn trim_start(s: Seq<char>) -> Seq<char>
    decreases s.len(),
{
    if s.len() > 0 && is_whitespace(s[0]) {
        trim_start(s.skip(1))
    } else {
        s
    }
}

/// `s` without the white space it ends with.
pub open spec fn trim_end(s: Seq<char>) -> Seq<char>
    decreases s.len(),
{
    if s.len() > 0 && is_whitespace(s.last()) {
        trim_end(s.drop_last())
    } else {
        s
    }
}

/// `s` without the white space around it.
pub open spec fn trim(s: Seq<char>) -> Seq<char> {
    trim_end(trim_start(s))
}

/// The index of the first `c` in `s`, or the length of `s` where it holds none.
pub open spec fn first_index<T>(s: Seq<T>, c: T) -> int
    decreases s.len(),
{
    if s.len() == 0 || s[0] == c {
        0
    } else {
        1 + first_index(s.skip(1), c)
    }
}

/// The pieces of `s` between the occurrences of `sep`, in order. A text with
/// `n` separators has `n + 1` pieces, some of which may be empty.
pub open spec fn split(s: Seq<char>, sep: char) -> Seq<Seq<char>>
    decreases s.len(),
{
    let k = first_index(s, sep);
    if 0 <= k < s.len() {
        seq![s.take(k)] + split(s.skip(k + 1), sep)
    } else {
        seq![s]
    }
}

/// The texts that the vectors of `pieces` hold.
pub open spec fn views(pieces: Seq<Vec<char>>) -> Seq<Seq<char>> {
    Seq::new(pieces.len(), |i: int| pieces[i]@)
}

/// The first index lies within the text or at its end; where it lies within,
/// it holds `c`, and nothing before it does.
pub proof fn lemma_first_index_bounds<T>(s: Seq<T>, c: T)
    ensures
        0 <= first_index(s, c) <= s.len(),
        first_index(s, c) < s.len() ==> s[first_index(s, c)] == c,
        forall|i: int| 0 <= i < first_index(s, c) ==> s[i] != c,
    decreases s.len(),
{
    if s.len() == 0 || s[0] == c {
    } else {
        lemma_first_index_bounds(s.skip(1), c);
        assert forall|i: int| 0 <= i < first_index(s, c) implies s[i] != c by {
            if i > 0 {
                assert(s.skip(1)[i - 1] == s[i]);
            }
        }
    }
}

/// The first index is the one place that holds `c` with no `c` before it.
pub proof fn lemma_first_index_is<T>(s: Seq<T>, c: T, k: int)
    requires
        0 <= k <= s.len(),
        k < s.len() ==> s[k] == c,
        forall|i: int| 0 <= i < k ==> s[i] != c,
    ensures
        first_index(s, c) == k,
{
    lemma_first_index_bounds(s, c);
}

/// White space at the start of a text can be skipped before the start is
/// trimmed.
pub proof fn lemma_trim_start_skips(s: Seq<char>, k: int)
    requires
        0 <= k <= s.len(),
        forall|i: int| 0 <= i < k ==> is_whitespace(s[i]),
    ensures
        trim_start(s) == trim_start(s.skip(k)),
    decreases k,
{
    if k == 0 {
        assert(s.skip(0) =~= s);
    } else {
        let rest = s.skip(1);
        assert forall|i: int| 0 <= i < k - 1 implies is_whitespace(rest[i]) by {
            assert(rest[i] == s[i + 1]);
        }
        lemma_trim_start_skips(rest, k - 1);
        assert(rest.skip(k - 1) =~= s.skip(k));
    }
}

/// White space at the end of a text can be dropped before the end is
/// trimmed.
pub proof fn lemma_trim_end_drops(s: Seq<char>, k: int)
    requires
        0 <= k <= s.len(),
        forall|i: int| k <= i < s.len() ==> is_whitespace(s[i]),
    ensures
        trim_end(s) == trim_end(s.take(k)),
    decreases s.len() - k,
{
    if k == s.len() {
        assert(s.take(k) =~= s);
    } else {
        let rest = s.drop_last();
        lemma_trim_end_drops(rest, k);
        assert(rest.take(k) =~= s.take(k));
    }
}

/// How many characters the pieces of `pieces` hold together.
pub open spec fn total_chars(pieces: Seq<Seq<char>>) -> nat
    decreases pieces.len(),
{
    if pieces.len() == 0 {
        0
    } else {
        total_chars(pieces.drop_last()) + pieces.last().len()
    }
}

/// Pieces put one behind the other hold the characters of both.
pub proof fn lemma_total_chars_concat(a: Seq<Seq<char>>, b: Seq<Seq<char>>)
    ensures
        total_chars(a + b) == total_chars(a) + total_chars(b),
    decreases b.len(),
{
    if b.len() == 0 {
        assert(a + b =~= a);
    } else {
        lemma_total_chars_concat(a, b.drop_last());
        assert((a + b).drop_last() =~= a + b.drop_last());
    }
}

/// Trimming takes characters away and adds none.
pub proof fn lemma_trim_shortens(s: Seq<char>)
    ensures
        trim_start(s).len() <= s.len(),
        trim_end(s).len() <= s.len(),
        trim(s).len() <= s.len(),
    decreases s.len(),
{
    if s.len() > 0 {
        lemma_trim_shortens(s.skip(1));
        lemma_trim_shortens(s.drop_last());
    }
    lemma_trim_end_shortens(trim_start(s));
}

proof fn lemma_trim_end_shortens(s: Seq<char>)
    ensures
        trim_end(s).len() <= s.len(),
    decreases s.len(),
{
    if s.len() > 0 {
        lemma_trim_end_shortens(s.drop_last());
    }
}

/// The pieces of a text hold its characters but for the separators: together
/// they are no longer than the text.
pub proof fn lemma_split_shortens(s: Seq<char>, sep: char)
    ensures
        total_chars(split(s, sep)) <= s.len(),
    decreases s.len(),
{
    reveal_with_fuel(total_chars, 2);
    lemma_first_index_bounds(s, sep);
    let k = first_index(s, sep);
    if 0 <= k < s.len() {
        lemma_split_shortens(s.skip(k + 1), sep);
        lemma_total_chars_concat(seq![s.take(k)], split(s.skip(k + 1), sep));
        assert(seq![s.take(k)].drop_last() =~= Seq::<Seq<char>>::empty());
    } else {
        assert(seq![s].drop_last() =~= Seq::<Seq<char>>::empty());
    }
}

/// Whether `c` is white space.
pub fn is_whitespace_char(c: char) -> (white: bool)
    ensures
        white == is_whitespace(c),
{
    let u = c as u32;
    (0x09 <= u && u <= 0x0D) || u == 0x20 || u == 0x85 || u == 0xA0 || u == 0x1680 || (0x2000 <= u
        && u <= 0x200A) || u == 0x2028 || u == 0x2029 || u == 0x202F || u == 0x205F || u == 0x3000
}

/// The characters of `s`, in order.
pub fn to_chars(s: &str) -> (chars: Vec<char>)
    ensures
        chars@ == s@,
{
    let mut chars: Vec<char> = Vec::new();
    for c in it: s.chars()
        invariant
            it.seq() == s@,
            chars@ == s@.take(it.index() as int),
    {
        assert(s@.take(it.index() + 1) =~= s@.take(it.index() as int).push(c));
        chars.push(c);
    }
    assert(s@.take(s@.len() as int) =~= s@);
    chars
}

/// `String::push` of the standard library: the string afterwards is the string
/// before with `c` at its end.
pub assume_specification[ String::push ](s: &mut String, c: char)
    ensures
        final(s)@ == old(s)@.push(c),
;

/// The string that holds the characters of `chars`, in order.
pub fn to_string(chars: &[char]) -> (s: String)
    ensures
        s@ == chars@,
{
    let mut s = String::new();
    let mut i: usize = 0;
    while i < chars.len()
        invariant
            i <= chars.len(),
            s@ == chars@.take(i as int),
        decreases chars.len() - i,
    {
        assert(chars@.take(i + 1) =~= chars@.take(i as int).push(chars@[i as int]));
        s.push(chars[i]);
        i += 1;
    }
    assert(chars@.take(chars@.len() as int) =~= chars@);
    s
}

/// A copy of the characters of `chars` from `from` up to `to`.
pub fn copy_range(chars: &[char], from: usize, to: usize) -> (piece: Vec<char>)
    requires
        from <= to <= chars.len(),
    ensures
        piece@ == chars@.subrange(from as int, to as int),
{
    let mut piece: Vec<char> = Vec::new();
    let mut i: usize = from;
    while i < to
        invariant
            from <= i <= to <= chars.len(),
            piece@ == chars@.subrange(from as int, i as int),
        decreases to - i,
    {
        assert(chars@.subrange(from as int, i + 1) =~= chars@.subrange(from as int, i as int).push(
            chars@[i as int],
        ));
        piece.push(chars[i]);
        i += 1;
    }
    piece
}

/// `chars` without the white space around it.
pub fn trimmed(chars: &[char]) -> (piece: Vec<char>)
    ensures
        piece@ == trim(chars@),
{
    let mut lo: usize = 0;
    while lo < chars.len() && is_whitespace_char(chars[lo])
        invariant
            lo <= chars.len(),
            forall|i: int| 0 <= i < lo ==> is_whitespace(chars@[i]),
        decreases chars.len() - lo,
    {
        lo += 1;
    }
    let mut hi: usize = chars.len();
    while hi > lo && is_whitespace_char(chars[hi - 1])
        invariant
            lo <= hi <= chars.len(),
            forall|i: int| hi <= i < chars.len() ==> is_whitespace(chars@[i]),
        decreases hi,
    {
        hi -= 1;
    }
    proof {
        let s = chars@;
        lemma_trim_start_skips(s, lo as int);
        let t = s.skip(lo as int);
        assert(trim_start(t) == t) by {
            if t.len() > 0 {
                assert(t[0] == s[lo as int]);
            }
        }
        assert forall|i: int| hi - lo <= i < t.len() implies is_whitespace(t[i]) by {
            assert(t[i] == s[i + lo]);
        }
        lemma_trim_end_drops(t, hi - lo);
        let core = t.take(hi - lo);
        assert(core =~= s.subrange(lo as int, hi as int));
        assert(trim_end(core) == core) by {
            if core.len() > 0 {
                assert(core.last() == s[hi - 1]);
            }
        }
    }
    copy_range(chars, lo, hi)
}

/// The pieces of `chars` between the occurrences of `sep`, in order.
pub fn split_at_each(chars: &[char], sep: char) -> (pieces: Vec<Vec<char>>)
    ensures
        views(pieces@) == split(chars@, sep),
{
    let mut pieces: Vec<Vec<char>> = Vec::new();
    let mut start: usize = 0;
    let mut i: usize = 0;
    proof {
        assert(chars@.skip(0) =~= chars@);
        assert(views(pieces@) + split(chars@, sep) =~= split(chars@, sep));
    }
    while i < chars.len()
        invariant
            start <= i <= chars.len(),
            forall|j: int| start <= j < i ==> chars@[j] != sep,
            split(chars@, sep) == views(pieces@) + split(chars@.skip(start as int), sep),
        decreases chars.len() - i,
    {
        if chars[i] == sep {
            let piece = copy_range(chars, start, i);
            proof {
                let rest = chars@.skip(start as int);
                assert forall|j: int| 0 <= j < i - start implies rest[j] != sep by {
                    assert(rest[j] == chars@[j + start]);
                }
                lemma_first_index_is(rest, sep, i - start);
                assert(rest.take(i - start) =~= piece@);
                assert(rest.skip(i - start + 1) =~= chars@.skip(i + 1));
                assert(views(pieces@.push(piece)) =~= views(pieces@) + seq![piece@]);
            }
            pieces.push(piece);
            start = i + 1;
        }
        i += 1;
    }
    let piece = copy_range(chars, start, i);
    proof {
        let rest = chars@.skip(start as int);
        assert forall|j: int| 0 <= j < rest.len() implies rest[j] != sep by {
            assert(rest[j] == chars@[j + start]);
        }
        lemma_first_index_is(rest, sep, rest.len() as int);
        assert(rest =~= piece@);
        assert(views(pieces@.push(piece)) =~= views(pieces@) + seq![piece@]);
    }
    pieces.push(piece);
    pieces
}

} // verus!
