//! Character-level helpers for the text this crate reads and writes.
//!
//! Text is modelled as `Seq<char>`, the view of `str` and `String`. Functions
//! that look inside a text first copy its characters into a `Vec<char>`.

use vstd::prelude::*;

verus! {

/// The characters of `s`, in order.
pub fn chars_of(s: &str) -> (v: Vec<char>)
    ensures
        v@ == s@,
{
    let mut v: Vec<char> = Vec::new();
    for c in it: s.chars()
        invariant
            it.seq() == s@,
            v@ == it.seq().take(it.index()),
    {
        v.push(c);
    }
    v
}

/// Whether `chars` spells exactly the text `word`.
pub fn same_chars(chars: &Vec<char>, word: &str) -> (same: bool)
    ensures
        same == (chars@ == word@),
{
    let other = chars_of(word);
    if chars.len() != other.len() {
        return false;
    }
    let mut i: usize = 0;
    while i < chars.len()
        invariant
            i <= chars.len(),
            chars.len() == other.len(),
            other@ == word@,
            forall|k: int| 0 <= k < i ==> chars[k] == other[k],
        decreases chars.len() - i,
    {
        if chars[i] != other[i] {
            return false;
        }
        i += 1;
    }
    assert(chars@ =~= other@);
    true
}

/// Where the first `sep` stands in `s`, or the length of `s` where it holds
/// none.
pub open spec fn first_separator(s: Seq<char>, sep: char) -> int
    decreases s.len(),
{
    if s.len() == 0 || s[0] == sep {
        0
    } else {
        1 + first_separator(s.drop_first(), sep)
    }
}

/// The fields of `s`: the stretches of text between one `sep` and the next.
/// A text without `sep` is one field, the empty text too; a text that ends in
/// `sep` has an empty last field.
pub open spec fn fields(s: Seq<char>, sep: char) -> Seq<Seq<char>>
    decreases s.len(),
{
    let at = first_separator(s, sep);
    if 0 <= at < s.len() {
        seq![s.take(at)] + fields(s.skip(at + 1), sep)
    } else {
        seq![s]
    }
}

/// The first separator is at `at` when `sep` stands there and nowhere before,
/// and at the end when `sep` stands nowhere.
pub proof fn lemma_first_separator(s: Seq<char>, sep: char, at: int)
    requires
        0 <= at <= s.len(),
        forall|k: int| 0 <= k < at ==> s[k] != sep,
        at < s.len() ==> s[at] == sep,
    ensures
        first_separator(s, sep) == at,
    decreases at,
{
    if at > 0 {
        lemma_first_separator(s.drop_first(), sep, at - 1);
    }
}

/// The pieces of `chars` that `bounds` marks: for each pair `(start, end)` the
/// text `chars[start..end]`.
pub open spec fn pieces(chars: Seq<char>, bounds: Seq<(usize, usize)>) -> Seq<Seq<char>> {
    Seq::new(bounds.len(), |j: int| chars.subrange(bounds[j].0 as int, bounds[j].1 as int))
}

/// Where each field of `chars` starts and ends: for field number `j` the pair
/// `(start, end)` with `chars[start..end]` the field. The first field starts
/// at the start of the text, the last ends at its end, and between the end of
/// one field and the start of the next stands one separator.
pub fn field_bounds(chars: &Vec<char>, sep: char) -> (bounds: Vec<(usize, usize)>)
    ensures
        pieces(chars@, bounds@) == fields(chars@, sep),
        bounds.len() >= 1,
        bounds[0].0 == 0,
        bounds[bounds.len() - 1].1 == chars.len(),
        forall|j: int|
            0 <= j < bounds.len() ==> (#[trigger] bounds[j]).0 <= bounds[j].1 <= chars.len(),
        forall|j: int|
            0 <= j < bounds.len() - 1 ==> (#[trigger] bounds[j]).1 + 1 == bounds[j + 1].0
                && chars[bounds[j].1 as int] == sep,
{
    let mut bounds: Vec<(usize, usize)> = Vec::new();
    let mut start: usize = 0;
    let mut i: usize = 0;
    proof {
        assert(chars@.skip(0) =~= chars@);
        assert(pieces(chars@, bounds@) + fields(chars@, sep) =~= fields(chars@, sep));
    }
    while i < chars.len()
        invariant
            start <= i <= chars.len(),
            forall|k: int| start <= k < i ==> chars[k] != sep,
            fields(chars@, sep) == pieces(chars@, bounds@) + fields(
                chars@.skip(start as int),
                sep,
            ),
            forall|j: int| 0 <= j < bounds.len() ==> (#[trigger] bounds[j]).0 <= bounds[j].1 < i,
            bounds.len() == 0 ==> start == 0,
            bounds.len() > 0 ==> bounds[0].0 == 0 && bounds[bounds.len() - 1].1 + 1 == start
                && chars[bounds[bounds.len() - 1].1 as int] == sep,
            forall|j: int|
                0 <= j < bounds.len() - 1 ==> (#[trigger] bounds[j]).1 + 1 == bounds[j + 1].0
                    && chars[bounds[j].1 as int] == sep,
        decreases chars.len() - i,
    {
        if chars[i] == sep {
            let ghost done = pieces(chars@, bounds@);
            bounds.push((start, i));
            proof {
                let rest = chars@.skip(start as int);
                lemma_first_separator(rest, sep, i - start);
                assert(rest.take(i - start) =~= chars@.subrange(start as int, i as int));
                assert(rest.skip(i - start + 1) =~= chars@.skip(i + 1));
                assert(pieces(chars@, bounds@) =~= done.push(
                    chars@.subrange(start as int, i as int),
                ));
                assert(fields(chars@, sep) =~= pieces(chars@, bounds@) + fields(
                    chars@.skip(i + 1),
                    sep,
                ));
            }
            start = i + 1;
        }
        i += 1;
    }
    let ghost done = pieces(chars@, bounds@);
    bounds.push((start, chars.len()));
    proof {
        let rest = chars@.skip(start as int);
        lemma_first_separator(rest, sep, rest.len() as int);
        assert(rest =~= chars@.subrange(start as int, chars.len() as int));
        assert(pieces(chars@, bounds@) =~= done.push(rest));
        assert(fields(chars@, sep) =~= pieces(chars@, bounds@));
    }
    bounds
}

/// A copy of `chars[start..end]`.
pub fn copy_range(chars: &Vec<char>, start: usize, end: usize) -> (piece: Vec<char>)
    requires
        start <= end <= chars.len(),
    ensures
        piece@ == chars@.subrange(start as int, end as int),
{
    let mut piece: Vec<char> = Vec::new();
    let mut i: usize = start;
    while i < end
        invariant
            start <= i <= end <= chars.len(),
            piece@ == chars@.subrange(start as int, i as int),
        decreases end - i,
    {
        piece.push(chars[i]);
        i += 1;
    }
    piece
}

/// `parts` written one after another with one `sep` between each two.
pub open spec fn rejoined(parts: Seq<Seq<char>>, sep: char) -> Seq<char>
    decreases parts.len(),
{
    if parts.len() == 0 {
        Seq::empty()
    } else if parts.len() == 1 {
        parts[0]
    } else {
        parts[0] + seq![sep] + rejoined(parts.drop_first(), sep)
    }
}

/// The first separator lies inside the text or at its end, no `sep` stands
/// before it, and inside the text `sep` stands there.
pub proof fn lemma_first_separator_found(s: Seq<char>, sep: char)
    ensures
        0 <= first_separator(s, sep) <= s.len(),
        forall|k: int| 0 <= k < first_separator(s, sep) ==> s[k] != sep,
        first_separator(s, sep) < s.len() ==> s[first_separator(s, sep)] == sep,
    decreases s.len(),
{
    if !(s.len() == 0 || s[0] == sep) {
        let rest = s.drop_first();
        lemma_first_separator_found(rest, sep);
        assert forall|k: int| 0 <= k < first_separator(s, sep) implies s[k] != sep by {
            if k > 0 {
                assert(s[k] == rest[k - 1]);
            }
        }
        if first_separator(s, sep) < s.len() {
            assert(s[first_separator(s, sep)] == rest[first_separator(rest, sep)]);
        }
    }
}

/// Splitting loses nothing: a text has at least one field, no field holds
/// the separator, and the fields joined by the separator are the text.
pub proof fn lemma_fields_rejoin(s: Seq<char>, sep: char)
    ensures
        fields(s, sep).len() >= 1,
        forall|j: int, k: int|
            0 <= j < fields(s, sep).len() && 0 <= k < fields(s, sep)[j].len() ==> fields(
                s,
                sep,
            )[j][k] != sep,
        rejoined(fields(s, sep), sep) == s,
    decreases s.len(),
{
    lemma_first_separator_found(s, sep);
    let at = first_separator(s, sep);
    if at < s.len() {
        let head = s.take(at);
        let rest = s.skip(at + 1);
        let tail = fields(rest, sep);
        let all = fields(s, sep);
        lemma_fields_rejoin(rest, sep);
        assert(all =~= seq![head] + tail);
        assert(all.drop_first() =~= tail);
        assert(all[0] == head);
        assert(rejoined(all, sep) == head + seq![sep] + rejoined(tail, sep));
        assert(head + seq![sep] + rest =~= s);
        assert forall|j: int, k: int| 0 <= j < all.len() && 0 <= k < all[j].len() implies all[j][k]
            != sep by {
            if j > 0 {
                assert(all[j] == tail[j - 1]);
            }
        }
    }
}

} // verus!
