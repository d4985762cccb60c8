//! Character classes and string primitives used by the parser.
//!
//! Everything is specified over `Seq<char>` views; each executable helper
//! is verified against its spec function.

use vstd::prelude::*;
use vstd::string::*;

verus! {

/// Whitespace as the parser understands it: the ASCII blanks that occur
/// in request files.
pub open spec fn ws_char(c: char) -> bool {
    c == ' ' || c == '\t' || c == '\r' || c == '\n'
}

/// Word characters, as allowed inside a `{{NAME}}` placeholder.
pub open spec fn word_char(c: char) -> bool {
    ('a' <= c && c <= 'z') || ('A' <= c && c <= 'Z') || ('0' <= c && c <= '9') || c == '_'
}

/// Decimal digits.
pub open spec fn digit_char(c: char) -> bool {
    '0' <= c && c <= '9'
}

/// A line consisting of whitespace only (possibly empty).
pub open spec fn is_blank(s: Seq<char>) -> bool {
    forall|i: int| 0 <= i < s.len() ==> ws_char(s[i])
}

/// `p` is a prefix of `s`.
pub open spec fn has_prefix(s: Seq<char>, p: Seq<char>) -> bool {
    p.len() <= s.len() && s.subrange(0, p.len() as int) == p
}

/// `s` without its leading whitespace.
pub open spec fn trim_start(s: Seq<char>) -> Seq<char>
    decreases s.len(),
{
    if s.len() > 0 && ws_char(s[0]) {
        trim_start(s.drop_first())
    } else {
        s
    }
}

/// `s` without its trailing whitespace.
pub open spec fn trim_end(s: Seq<char>) -> Seq<char>
    decreases s.len(),
{
    if s.len() > 0 && ws_char(s.last()) {
        trim_end(s.drop_last())
    } else {
        s
    }
}

/// `s` without leading and trailing whitespace.
pub open spec fn trim(s: Seq<char>) -> Seq<char> {
    trim_end(trim_start(s))
}

/// The pieces of `s` cut at every occurrence of `sep`; the separator is
/// dropped, and `n` separators yield `n + 1` pieces.
pub open spec fn split_char(s: Seq<char>, sep: char) -> Seq<Seq<char>>
    decreases s.len(),
{
    if s.len() == 0 {
        seq![Seq::<char>::empty()]
    } else if s[0] == sep {
        seq![Seq::<char>::empty()] + split_char(s.drop_first(), sep)
    } else {
        let rest = split_char(s.drop_first(), sep);
        seq![seq![s[0]] + rest[0]] + rest.drop_first()
    }
}

/// `s` cut at the first occurrence of `sep`: the part before and the part
/// after, or `None` if `sep` does not occur.
pub open spec fn split_once_at(s: Seq<char>, sep: char) -> Option<(Seq<char>, Seq<char>)>
    decreases s.len(),
{
    if s.len() == 0 {
        None
    } else if s[0] == sep {
        Some((Seq::<char>::empty(), s.drop_first()))
    } else {
        match split_once_at(s.drop_first(), sep) {
            None => None,
            Some((a, b)) => Some((seq![s[0]] + a, b)),
        }
    }
}

/// The pieces joined back with a newline between consecutive pieces.
pub open spec fn join_nl(parts: Seq<Seq<char>>) -> Seq<char>
    decreases parts.len(),
{
    if parts.len() == 0 {
        Seq::<char>::empty()
    } else if parts.len() == 1 {
        parts[0]
    } else {
        parts[0] + seq!['\n'] + join_nl(parts.drop_first())
    }
}

/// The views of a sequence of strings.
pub open spec fn seq_views(v: Seq<String>) -> Seq<Seq<char>> {
    v.map_values(|s: String| s@)
}

/// The views of a sequence of string pairs.
pub open spec fn pair_views(v: Seq<(String, String)>) -> Seq<(Seq<char>, Seq<char>)> {
    v.map_values(|p: (String, String)| (p.0@, p.1@))
}

pub proof fn lemma_trim_start_len(s: Seq<char>)
    ensures
        trim_start(s).len() <= s.len(),
    decreases s.len(),
{
    if s.len() > 0 && ws_char(s[0]) {
        lemma_trim_start_len(s.drop_first());
    }
}

pub proof fn lemma_split_char_len(s: Seq<char>, sep: char)
    ensures
        split_char(s, sep).len() >= 1,
    decreases s.len(),
{
    if s.len() > 0 {
        lemma_split_char_len(s.drop_first(), sep);
    }
}

/// Splitting on the first occurrence of `sep`, located at index `i`.
pub proof fn lemma_split_once_at_found(s: Seq<char>, sep: char, i: int)
    requires
        0 <= i < s.len(),
        s[i] == sep,
        forall|k: int| 0 <= k < i ==> s[k] != sep,
    ensures
        split_once_at(s, sep) == Some((s.subrange(0, i), s.subrange(i + 1, s.len() as int))),
    decreases i,
{
    if i == 0 {
        assert(s.subrange(0, 0) =~= Seq::<char>::empty());
        assert(s.subrange(1, s.len() as int) =~= s.drop_first());
    } else {
        lemma_split_once_at_found(s.drop_first(), sep, i - 1);
        assert(seq![s[0]] + s.drop_first().subrange(0, i - 1) =~= s.subrange(0, i));
        assert(s.drop_first().subrange(i, s.len() - 1) =~= s.subrange(i + 1, s.len() as int));
    }
}

/// If `sep` never occurs, there is nothing to split at.
pub proof fn lemma_split_once_at_none(s: Seq<char>, sep: char)
    requires
        forall|k: int| 0 <= k < s.len() ==> s[k] != sep,
    ensures
        split_once_at(s, sep) is None,
    decreases s.len(),
{
    if s.len() > 0 {
        lemma_split_once_at_none(s.drop_first(), sep);
    }
}

/// Appending one more piece extends the joined text by a newline and the piece.
pub proof fn lemma_join_nl_push(parts: Seq<Seq<char>>, x: Seq<char>)
    ensures
        parts.len() == 0 ==> join_nl(parts.push(x)) == x,
        parts.len() > 0 ==> join_nl(parts.push(x)) == join_nl(parts) + seq!['\n'] + x,
    decreases parts.len(),
{
    if parts.len() == 0 {
        assert(parts.push(x)[0] =~= x);
    } else if parts.len() == 1 {
        assert(parts.push(x).drop_first() =~= seq![x]);
        assert(parts.push(x)[0] =~= parts[0]);
        assert(join_nl(seq![x]) == seq![x][0]);
        assert(seq![x][0] =~= x);
        assert(parts[0] + seq!['\n'] + x =~= join_nl(parts) + seq!['\n'] + x);
    } else {
        lemma_join_nl_push(parts.drop_first(), x);
        assert(parts.push(x).drop_first() =~= parts.drop_first().push(x));
        assert(parts.push(x)[0] =~= parts[0]);
        assert(parts[0] + seq!['\n'] + (join_nl(parts.drop_first()) + seq!['\n'] + x) =~= (parts[0]
            + seq!['\n'] + join_nl(parts.drop_first())) + seq!['\n'] + x);
    }
}

/// Executable whitespace test, equal to [`ws_char`].
pub fn is_ws(c: char) -> (r: bool)
    ensures
        r == ws_char(c),
{
    c == ' ' || c == '\t' || c == '\r' || c == '\n'
}

/// Executable word-character test, equal to [`word_char`].
pub fn is_word_char(c: char) -> (r: bool)
    ensures
        r == word_char(c),
{
    ('a' <= c && c <= 'z') || ('A' <= c && c <= 'Z') || ('0' <= c && c <= '9') || c == '_'
}

/// Executable digit test, equal to [`digit_char`].
pub fn is_digit_char(c: char) -> (r: bool)
    ensures
        r == digit_char(c),
{
    '0' <= c && c <= '9'
}

/// Character-wise string equality.
pub fn str_eq(a: &str, b: &str) -> (r: bool)
    ensures
        r == (a@ == b@),
{
    let n = a.unicode_len();
    if n != b.unicode_len() {
        return false;
    }
    for i in 0..n
        invariant
            n == a@.len(),
            n == b@.len(),
            forall|k: int| 0 <= k < i ==> a@[k] == b@[k],
    {
        if a.get_char(i) != b.get_char(i) {
            return false;
        }
    }
    proof {
        assert(a@ =~= b@);
    }
    true
}

/// Whether `p` is a prefix of `s`, equal to [`has_prefix`].
pub fn str_has_prefix(s: &str, p: &str) -> (r: bool)
    ensures
        r == has_prefix(s@, p@),
{
    let m = p.unicode_len();
    if m > s.unicode_len() {
        return false;
    }
    for i in 0..m
        invariant
            m == p@.len(),
            m <= s@.len(),
            forall|k: int| 0 <= k < i ==> s@[k] == p@[k],
    {
        if s.get_char(i) != p.get_char(i) {
            proof {
                if has_prefix(s@, p@) {
                    assert(s@.subrange(0, p@.len() as int)[i as int] == p@[i as int]);
                }
            }
            return false;
        }
    }
    proof {
        assert(s@.subrange(0, p@.len() as int) =~= p@);
    }
    true
}

/// Whether `s` is whitespace only, equal to [`is_blank`].
pub fn is_blank_str(s: &str) -> (r: bool)
    ensures
        r == is_blank(s@),
{
    let n = s.unicode_len();
    for i in 0..n
        invariant
            n == s@.len(),
            forall|k: int| 0 <= k < i ==> ws_char(s@[k]),
    {
        if !is_ws(s.get_char(i)) {
            return false;
        }
    }
    true
}

/// Whether `s` begins with a whitespace character; equivalently, whether
/// [`trim_start`] removes anything from it.
pub fn has_leading_ws(s: &str) -> (r: bool)
    ensures
        r == (s@.len() > 0 && ws_char(s@[0])),
        r == (trim_start(s@) != s@),
{
    proof {
        lemma_trim_start_len(s@);
        if s@.len() > 0 && ws_char(s@[0]) {
            lemma_trim_start_len(s@.drop_first());
        }
    }
    s.unicode_len() > 0 && is_ws(s.get_char(0))
}

/// `s` with its leading whitespace removed, equal to [`trim_start`].
pub fn trim_start_str(s: &str) -> (r: String)
    ensures
        r@ == trim_start(s@),
{
    let n = s.unicode_len();
    let mut i: usize = 0;
    proof {
        assert(s@.skip(0) =~= s@);
    }
    while i < n && is_ws(s.get_char(i))
        invariant
            n == s@.len(),
            0 <= i <= n,
            trim_start(s@) == trim_start(s@.skip(i as int)),
        decreases n - i,
    {
        proof {
            assert(s@.skip(i as int).drop_first() =~= s@.skip(i + 1));
        }
        i = i + 1;
    }
    proof {
        assert(trim_start(s@.skip(i as int)) == s@.skip(i as int));
        assert(s@.skip(i as int) =~= s@.subrange(i as int, n as int));
    }
    String::from_str(s.substring_char(i, n))
}

/// `s` with leading and trailing whitespace removed, equal to [`trim`].
pub fn trim_str(s: &str) -> (r: String)
    ensures
        r@ == trim(s@),
{
    let n = s.unicode_len();
    let mut i: usize = 0;
    proof {
        assert(s@.skip(0) =~= s@);
    }
    while i < n && is_ws(s.get_char(i))
        invariant
            n == s@.len(),
            0 <= i <= n,
            trim_start(s@) == trim_start(s@.skip(i as int)),
        decreases n - i,
    {
        proof {
            assert(s@.skip(i as int).drop_first() =~= s@.skip(i + 1));
        }
        i = i + 1;
    }
    proof {
        assert(trim_start(s@.skip(i as int)) == s@.skip(i as int));
        assert(s@.skip(i as int) =~= s@.subrange(i as int, n as int));
    }
    let mut j: usize = n;
    while j > i && is_ws(s.get_char(j - 1))
        invariant
            n == s@.len(),
            i <= j <= n,
            trim_start(s@) == s@.subrange(i as int, n as int),
            trim_end(s@.subrange(i as int, n as int)) == trim_end(s@.subrange(i as int, j as int)),
        decreases j,
    {
        proof {
            let t = s@.subrange(i as int, j as int);
            assert(t.last() == s@[j - 1]);
            assert(t.drop_last() =~= s@.subrange(i as int, j - 1));
        }
        j = j - 1;
    }
    proof {
        let t = s@.subrange(i as int, j as int);
        if j > i {
            assert(t.last() == s@[j - 1]);
        }
        assert(trim_end(t) == t);
    }
    String::from_str(s.substring_char(i, j))
}

/// Splits `s` at every occurrence of `sep`, equal to [`split_char`].
pub fn split_str(s: &str, sep: char) -> (r: Vec<String>)
    ensures
        seq_views(r@) == split_char(s@, sep),
        r@.len() >= 1,
{
    let n = s.unicode_len();
    let mut acc: Vec<String> = Vec::new();
    let mut start: usize = 0;
    let mut i: usize = 0;
    proof {
        lemma_split_char_len(s@, sep);
        assert(s@.skip(0) =~= s@);
        assert(s@.subrange(0, 0) =~= Seq::<char>::empty());
        let pieces = split_char(s@, sep);
        assert(Seq::<char>::empty() + pieces[0] =~= pieces[0]);
        assert(prepend_first(Seq::<char>::empty(), pieces) =~= pieces);
        assert(seq_views(acc@) =~= Seq::<Seq<char>>::empty());
        assert(seq_views(acc@) + pieces =~= pieces);
    }
    while i < n
        invariant
            n == s@.len(),
            0 <= start <= i <= n,
            split_char(s@, sep) == seq_views(acc@) + prepend_first(
                s@.subrange(start as int, i as int),
                split_char(s@.skip(i as int), sep),
            ),
        decreases n - i,
    {
        proof {
            lemma_split_char_len(s@.skip(i as int), sep);
            lemma_split_char_len(s@.skip(i + 1), sep);
            assert(s@.skip(i as int).drop_first() =~= s@.skip(i + 1));
        }
        if s.get_char(i) == sep {
            let piece = String::from_str(s.substring_char(start, i));
            proof {
                let p = s@.subrange(start as int, i as int);
                let tail = split_char(s@.skip(i + 1), sep);
                assert(split_char(s@.skip(i as int), sep) =~= seq![Seq::<char>::empty()] + tail);
                assert(prepend_first(p, seq![Seq::<char>::empty()] + tail) =~= seq![p] + tail);
                assert(seq![tail[0]] + tail.drop_first() =~= tail);
                assert(prepend_first(Seq::<char>::empty(), tail) =~= tail);
                assert(seq_views(acc@.push(piece)) =~= seq_views(acc@) + seq![p]);
            }
            acc.push(piece);
            start = i + 1;
        } else {
            proof {
                let p = s@.subrange(start as int, i as int);
                let rest = split_char(s@.skip(i + 1), sep);
                let c = s@[i as int];
                assert(split_char(s@.skip(i as int), sep) =~= seq![seq![c] + rest[0]]
                    + rest.drop_first());
                assert(p + (seq![c] + rest[0]) =~= (p.push(c)) + rest[0]);
                assert(prepend_first(p, split_char(s@.skip(i as int), sep)) =~= prepend_first(
                    p.push(c),
                    rest,
                ));
                assert(s@.subrange(start as int, i + 1) =~= p.push(c));
            }
        }
        i = i + 1;
    }
    let last = String::from_str(s.substring_char(start, n));
    proof {
        assert(s@.skip(n as int) =~= Seq::<char>::empty());
        let p = s@.subrange(start as int, n as int);
        assert(prepend_first(p, split_char(Seq::<char>::empty(), sep)) =~= seq![p]);
        assert(seq_views(acc@.push(last)) =~= seq_views(acc@) + seq![p]);
    }
    acc.push(last);
    acc
}

/// The first piece of a split grows by the given prefix; a helper shape
/// used while scanning a string left to right.
pub open spec fn prepend_first(p: Seq<char>, pieces: Seq<Seq<char>>) -> Seq<Seq<char>>
    recommends
        pieces.len() >= 1,
{
    seq![p + pieces[0]] + pieces.drop_first()
}

/// Cuts `s` at the first occurrence of `sep`, equal to [`split_once_at`].
pub fn split_once_str(s: &str, sep: char) -> (r: Option<(String, String)>)
    ensures
        match split_once_at(s@, sep) {
            None => r is None,
            Some(ab) => r matches Some(p) && p.0@ == ab.0 && p.1@ == ab.1,
        },
{
    let n = s.unicode_len();
    for i in 0..n
        invariant
            n == s@.len(),
            forall|k: int| 0 <= k < i ==> s@[k] != sep,
    {
        if s.get_char(i) == sep {
            proof {
                lemma_split_once_at_found(s@, sep, i as int);
            }
            let before = String::from_str(s.substring_char(0, i));
            let after = String::from_str(s.substring_char(i + 1, n));
            return Some((before, after));
        }
    }
    proof {
        lemma_split_once_at_none(s@, sep);
    }
    None
}

/// Joins the strings with a newline between consecutive elements, equal
/// to [`join_nl`] of their views.
pub fn join_lines(v: &Vec<String>) -> (r: String)
    ensures
        r@ == join_nl(seq_views(v@)),
{
    let mut acc = String::new();
    let n = v.len();
    for i in 0..n
        invariant
            n == v@.len(),
            acc@ == join_nl(seq_views(v@.subrange(0, i as int))),
    {
        if i > 0 {
            acc.append("\n");
            proof {
                reveal_strlit("\n");
            }
        }
        acc.append(v[i].as_str());
        proof {
            let pre = seq_views(v@.subrange(0, i as int));
            lemma_join_nl_push(pre, v@[i as int]@);
            assert(seq_views(v@.subrange(0, i + 1)) =~= pre.push(v@[i as int]@));
            if i > 0 {
                assert(acc@ == join_nl(pre) + seq!['\n'] + v@[i as int]@);
            } else {
                assert(pre =~= Seq::<Seq<char>>::empty());
            }
        }
    }
    proof {
        assert(v@.subrange(0, n as int) =~= v@);
    }
    acc
}

} // verus!
