//! Kernel command line parsing: space-separated `key=value` items.

use vstd::prelude::*;

verus! {

/// The first index at or after `i` that holds `sep`, or the length.
pub open spec fn next_sep(s: Seq<char>, i: int, sep: char) -> int
    decreases s.len() - i,
{
    if i >= s.len() {
        s.len() as int
    } else if s[i] == sep {
        i
    } else {
        next_sep(s, i + 1, sep)
    }
}

proof fn lemma_next_sep(s: Seq<char>, i: int, j: int, sep: char)
    requires
        0 <= i <= j <= s.len(),
        forall|k: int| i <= k < j ==> s[k] != sep,
        j == s.len() || s[j] == sep,
    ensures
        next_sep(s, i, sep) == j,
    decreases j - i,
{
    if i < j {
        lemma_next_sep(s, i + 1, j, sep);
    }
}

/// The first separator at or after `i` lies between `i` and the end.
pub proof fn lemma_next_sep_bounds(s: Seq<char>, i: int, sep: char)
    ensures
        i <= s.len() ==> i <= next_sep(s, i, sep) <= s.len(),
    decreases s.len() - i,
{
    if i < s.len() && s[i] != sep {
        lemma_next_sep_bounds(s, i + 1, sep);
    }
}

/// The pieces of `s` from `pos` on, split at each `sep`.
pub open spec fn pieces_from(s: Seq<char>, pos: int, sep: char) -> Seq<Seq<char>>
    decreases s.len() - pos,
{
    let j = next_sep(s, pos, sep);
    if pos > s.len() {
        seq![]
    } else if j >= s.len() {
        seq![s.subrange(pos, s.len() as int)]
    } else {
        proof {
            lemma_next_sep_bounds(s, pos, sep);
        }
        seq![s.subrange(pos, j)] + pieces_from(s, j + 1, sep)
    }
}

/// A piece split at its first `=` into key and value; a piece without one
/// is a key with an empty value.
pub open spec fn key_value(p: Seq<char>) -> (Seq<char>, Seq<char>) {
    let j = next_sep(p, 0, '=');
    if j >= p.len() {
        (p, seq![])
    } else {
        (p.subrange(0, j), p.subrange(j + 1, p.len() as int))
    }
}

/// The key-value pairs of a command line, in order.
pub open spec fn cmdline_pairs(s: Seq<char>) -> Seq<(Seq<char>, Seq<char>)> {
    pieces_from(s, 0, ' ').map_values(|p: Seq<char>| key_value(p))
}

/// A command line that is one item: a key `k` holding neither a space nor
/// `=`, then `=` and a value `v` holding no space, gives the one pair
/// `(k, v)`; the key alone gives `(k, "")`.
pub proof fn law_single_item(k: Seq<char>, v: Seq<char>)
    requires
        forall|i: int| 0 <= i < k.len() ==> k[i] != ' ' && k[i] != '=',
        forall|i: int| 0 <= i < v.len() ==> v[i] != ' ',
    ensures
        cmdline_pairs(k + seq!['='] + v) == seq![(k, v)],
        cmdline_pairs(k) == seq![(k, Seq::<char>::empty())],
{
    let s = k + seq!['='] + v;
    assert forall|i: int| 0 <= i < s.len() implies s[i] != ' ' by {
        if i < k.len() {
            assert(s[i] == k[i]);
        } else if i > k.len() {
            assert(s[i] == v[i - k.len() - 1]);
        }
    }
    lemma_next_sep(s, 0, s.len() as int, ' ');
    assert(s.subrange(0, s.len() as int) =~= s);
    assert(pieces_from(s, 0, ' ') == seq![s]);
    assert forall|i: int| 0 <= i < k.len() implies s[i] != '=' by {
        assert(s[i] == k[i]);
    }
    lemma_next_sep(s, 0, k.len() as int, '=');
    assert(s.subrange(0, k.len() as int) =~= k);
    assert(s.subrange(k.len() as int + 1, s.len() as int) =~= v);
    assert(cmdline_pairs(s) =~= seq![(k, v)]);
    lemma_next_sep(k, 0, k.len() as int, ' ');
    lemma_next_sep(k, 0, k.len() as int, '=');
    assert(k.subrange(0, k.len() as int) =~= k);
    assert(cmdline_pairs(k) =~= seq![(k, Seq::<char>::empty())]);
}

/// A kernel command line.
#[derive(Debug)]
pub struct Cmdline {
    string: Vec<char>,
    text: String,
}

pub(crate) fn copy_range(s: &[char], from: usize, to: usize) -> (r: Vec<char>)
    requires
        from <= to <= s@.len(),
    ensures
        r@ == s@.subrange(from as int, to as int),
{
    let mut r: Vec<char> = Vec::new();
    let mut i = from;
    while i < to
        invariant
            from <= i <= to <= s@.len(),
            r@ == s@.subrange(from as int, i as int),
        decreases to - i,
    {
        r.push(s[i]);
        i = i + 1;
    }
    r
}

pub(crate) fn find_sep(s: &[char], from: usize, sep: char) -> (r: usize)
    requires
        from <= s@.len(),
    ensures
        r == next_sep(s@, from as int, sep),
        from <= r <= s@.len(),
{
    let mut i = from;
    while i < s.len() && s[i] != sep
        invariant
            from <= i <= s@.len(),
            forall|k: int| from <= k < i ==> s@[k] != sep,
        decreases s@.len() - i,
    {
        i = i + 1;
    }
    proof {
        lemma_next_sep(s@, from as int, i as int, sep);
    }
    i
}

/// The characters of a string.
pub(crate) fn chars_of(string: &str) -> (r: Vec<char>)
    ensures
        r@ == string@,
{
    broadcast use vstd::string::axiom_spec_iter;

    let mut chars: Vec<char> = Vec::new();
    for c in it: string.chars()
        invariant
            chars@ == it.seq().subrange(0, it.index() as int),
    {
        chars.push(c);
    }
    chars
}

impl Cmdline {
    #[verifier::type_invariant]
    spec fn inv(self) -> bool {
        self.text@ == self.string@
    }

    /// The characters of the command line.
    pub closed spec fn chars(&self) -> Seq<char> {
        self.string@
    }

    pub fn new(string: &str) -> (r: Cmdline)
        ensures
            r.chars() == string@,
    {
        let text = str::to_owned(string);
        let chars = chars_of(string);
        Cmdline { string: chars, text }
    }

    /// The command line as it was given.
    pub fn to_string(&self) -> (r: String)
        ensures
            r@ == self.chars(),
    {
        proof {
            use_type_invariant(self);
        }
        self.text.clone()
    }

    /// Iterate over the key-value pairs.
    pub fn iter(&self) -> (r: Iter<'_>)
        ensures
            r.remaining() == cmdline_pairs(self.chars()),
    {
        Iter { chars: self.string.as_slice(), pos: 0, finished: false }
    }
}

/// The key-value pairs of a command line.
pub struct Iter<'a> {
    chars: &'a [char],
    pos: usize,
    finished: bool,
}

impl<'a> Iter<'a> {
    /// The pairs not yet returned.
    pub closed spec fn remaining(&self) -> Seq<(Seq<char>, Seq<char>)> {
        if self.finished {
            seq![]
        } else {
            pieces_from(self.chars@, self.pos as int, ' ').map_values(|p: Seq<char>| key_value(p))
        }
    }

    pub fn next(&mut self) -> (r: Option<(Vec<char>, Vec<char>)>)
        ensures
            match r {
                None => old(self).remaining().len() == 0 && final(self).remaining().len() == 0,
                Some(kv) => old(self).remaining() == seq![(kv.0@, kv.1@)] + final(self).remaining(),
            },
    {
        if self.finished || self.pos > self.chars.len() {
            self.finished = true;
            return None;
        }
        let s = self.chars;
        let pos = self.pos;
        let j = find_sep(s, pos, ' ');
        let piece = copy_range(s, pos, j);
        let ghost rest = pieces_from(s@, pos as int, ' ');
        if j >= s.len() {
            self.finished = true;
        } else {
            self.pos = j + 1;
        }
        let k = find_sep(piece.as_slice(), 0, '=');
        let pair = if k >= piece.len() {
            (piece, Vec::new())
        } else {
            (copy_range(piece.as_slice(), 0, k), copy_range(piece.as_slice(), k + 1, piece.len()))
        };
        proof {
            let f = |p: Seq<char>| key_value(p);
            if j >= s@.len() {
                assert(rest.map_values(f) =~= seq![(pair.0@, pair.1@)]);
            } else {
                assert(rest.map_values(f) =~= seq![(pair.0@, pair.1@)] + pieces_from(s@, j + 1, ' ').map_values(f));
            }
        }
        Some(pair)
    }
}

} // verus!
