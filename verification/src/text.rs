//! Conversions between strings and sequences of characters.
use vstd::prelude::*;

verus! {

/// `String::push` appends one character to the end of the string.
pub assume_specification[ std::string::String::push ](s: &mut std::string::String, ch: char)
    ensures
        final(s)@ == old(s)@.push(ch),
;

/// Whether `c` is white space, as Unicode defines it.
pub uninterp spec fn is_whitespace(c: char) -> bool;

/// `char::is_whitespace` tells whether the character has the Unicode
/// property `White_Space`; its answer depends on the character alone.
pub assume_specification[ char::is_whitespace ](c: char) -> (b: bool)
    ensures
        b == is_whitespace(c),
;

/// The pieces of `s` between the occurrences of `sep`, from position `from`
/// on, where the piece under way starts at `piece`.
pub open spec fn split_from(s: Seq<char>, sep: char, piece: int, from: int) -> Seq<Seq<char>>
    decreases s.len() - from,
{
    if 0 <= piece <= from < s.len() {
        if s[from] == sep {
            seq![s.subrange(piece, from)] + split_from(s, sep, from + 1, from + 1)
        } else {
            split_from(s, sep, piece, from + 1)
        }
    } else {
        seq![s.subrange(piece, s.len() as int)]
    }
}

/// The pieces of `s` between the occurrences of `sep`: one more piece than
/// there are separators, empty pieces included.
pub open spec fn split(s: Seq<char>, sep: char) -> Seq<Seq<char>> {
    split_from(s, sep, 0, 0)
}

/// Where the white space at the start of `s` ends, looking from `i` on.
pub open spec fn trim_start(s: Seq<char>, i: int) -> int
    decreases s.len() - i,
{
    if 0 <= i < s.len() && is_whitespace(s[i]) {
        trim_start(s, i + 1)
    } else {
        i
    }
}

/// Where the white space at the end of `s` starts, looking from `j` back and
/// not further than `floor`.
pub open spec fn trim_end(s: Seq<char>, floor: int, j: int) -> int
    decreases j,
{
    if 0 <= floor < j <= s.len() && is_whitespace(s[j - 1]) {
        trim_end(s, floor, j - 1)
    } else {
        j
    }
}

/// `s` without the white space at its start and at its end.
pub open spec fn trimmed(s: Seq<char>) -> Seq<char> {
    let from = trim_start(s, 0);
    s.subrange(from, trim_end(s, from, s.len() as int))
}

/// The characters of a sequence of character vectors.
pub open spec fn texts(v: Seq<Vec<char>>) -> Seq<Seq<char>> {
    v.map_values(|p: Vec<char>| p@)
}

/// The characters of `s`, in order.
pub fn chars_of(s: &str) -> (v: Vec<char>)
    ensures
        v@ == s@,
{
    let mut v: Vec<char> = Vec::new();
    for c in it: s.chars()
        invariant
            v@ == it.seq().take(it.index() as int),
            it.seq() == s@,
    {
        v.push(c);
    }
    v
}

/// The string made of the characters `v[from..to]`.
pub fn string_of(v: &Vec<char>, from: usize, to: usize) -> (s: String)
    requires
        from <= to <= v.len(),
    ensures
        s@ == v@.subrange(from as int, to as int),
{
    let mut s = String::new();
    let mut i: usize = from;
    while i < to
        invariant
            from <= i <= to <= v.len(),
            s@ == v@.subrange(from as int, i as int),
        decreases to - i,
    {
        s.push(v[i]);
        i += 1;
        assert(v@.subrange(from as int, i as int) == v@.subrange(from as int, i - 1).push(v@[i - 1]));
    }
    s
}

/// The characters `v[from..to]`.
pub fn slice_of(v: &Vec<char>, from: usize, to: usize) -> (r: Vec<char>)
    requires
        from <= to <= v.len(),
    ensures
        r@ == v@.subrange(from as int, to as int),
{
    let mut r: Vec<char> = Vec::new();
    let mut i: usize = from;
    while i < to
        invariant
            from <= i <= to <= v.len(),
            r@ == v@.subrange(from as int, i as int),
        decreases to - i,
    {
        r.push(v[i]);
        i += 1;
        assert(v@.subrange(from as int, i as int) == v@.subrange(from as int, i - 1).push(v@[i - 1]));
    }
    r
}

/// The pieces of `chars` between the occurrences of `sep`.
pub fn split_at(chars: &Vec<char>, sep: char) -> (pieces: Vec<Vec<char>>)
    ensures
        texts(pieces@) == split(chars@, sep),
        pieces.len() >= 1,
{
    let ghost s = chars@;
    let mut pieces: Vec<Vec<char>> = Vec::new();
    let mut piece: usize = 0;
    let mut i: usize = 0;
    proof {
        assert(texts(pieces@) =~= Seq::<Seq<char>>::empty());
        assert(Seq::<Seq<char>>::empty() + split_from(s, sep, 0, 0) =~= split(s, sep));
    }
    while i < chars.len()
        invariant
            piece <= i <= chars.len(),
            s == chars@,
            texts(pieces@) + split_from(s, sep, piece as int, i as int) == split(s, sep),
        decreases chars.len() - i,
    {
        if chars[i] == sep {
            let part = slice_of(chars, piece, i);
            proof {
                let rest = split_from(s, sep, i + 1, i + 1);
                assert(texts(pieces@.push(part)) =~= texts(pieces@).push(part@));
                assert(texts(pieces@).push(part@) + rest =~= texts(pieces@) + (seq![part@] + rest));
            }
            pieces.push(part);
            piece = i + 1;
        }
        i += 1;
    }
    let part = slice_of(chars, piece, chars.len());
    proof {
        assert(texts(pieces@.push(part)) =~= texts(pieces@).push(part@));
        assert(texts(pieces@).push(part@) =~= texts(pieces@) + seq![part@]);
    }
    pieces.push(part);
    pieces
}

/// The string made of `chars` without the white space at its start and at
/// its end.
pub fn trim(chars: &Vec<char>) -> (r: String)
    ensures
        r@ == trimmed(chars@),
{
    let mut from: usize = 0;
    while from < chars.len() && chars[from].is_whitespace()
        invariant
            from <= chars.len(),
            trim_start(chars@, from as int) == trim_start(chars@, 0),
        decreases chars.len() - from,
    {
        from += 1;
    }
    let mut to: usize = chars.len();
    while from < to && chars[to - 1].is_whitespace()
        invariant
            from <= to <= chars.len(),
            trim_end(chars@, from as int, to as int) == trim_end(
                chars@,
                from as int,
                chars.len() as int,
            ),
        decreases to,
    {
        to -= 1;
    }
    string_of(chars, from, to)
}

} // verus!
