//! `{{NAME}}` placeholder expansion.
//!
//! A placeholder is `{{` followed by one or more word characters and
//! `}}`.  A line is expanded in a single left-to-right pass over its
//! original text: each placeholder is replaced by the value bound to its
//! name in the caller-supplied environment, and replacement values are
//! copied verbatim, never rescanned.  The first placeholder whose name is
//! unbound fails the expansion.

use vstd::prelude::*;
use vstd::string::*;

use crate::request::{ErrModel, ParseError};
use crate::text::{is_word_char, word_char};

verus! {

/// Length of the longest prefix of `s` made of word characters.
pub open spec fn wrun(s: Seq<char>) -> nat
    decreases s.len(),
{
    if s.len() > 0 && word_char(s[0]) {
        1 + wrun(s.drop_first())
    } else {
        0
    }
}

pub proof fn lemma_wrun(s: Seq<char>)
    ensures
        wrun(s) <= s.len(),
        forall|k: int| 0 <= k < wrun(s) ==> word_char(s[k]),
        wrun(s) < s.len() ==> !word_char(s[wrun(s) as int]),
    decreases s.len(),
{
    if s.len() > 0 && word_char(s[0]) {
        lemma_wrun(s.drop_first());
        assert forall|k: int| 0 <= k < wrun(s) implies word_char(s[k]) by {
            if k > 0 {
                assert(word_char(s.drop_first()[k - 1]));
            }
        }
    }
}

/// The exact word-run length, read off from the characters.
pub proof fn lemma_wrun_value(s: Seq<char>, m: int)
    requires
        0 <= m <= s.len(),
        forall|k: int| 0 <= k < m ==> word_char(s[k]),
        m < s.len() ==> !word_char(s[m]),
    ensures
        wrun(s) == m,
    decreases s.len(),
{
    if m == 0 {
    } else {
        lemma_wrun_value(s.drop_first(), m - 1);
    }
}

/// A placeholder `{{name}}` begins at the head of `s`.
pub open spec fn placeholder_at(s: Seq<char>) -> bool {
    &&& s.len() >= 4
    &&& s[0] == '{'
    &&& s[1] == '{'
    &&& wrun(s.skip(2)) >= 1
    &&& 4 + wrun(s.skip(2)) <= s.len()
    &&& s[2 + wrun(s.skip(2)) as int] == '}'
    &&& s[3 + wrun(s.skip(2)) as int] == '}'
}

/// The characters of that placeholder's name.
pub open spec fn ph_name(s: Seq<char>) -> Seq<char> {
    s.subrange(2, 2 + wrun(s.skip(2)) as int)
}

/// The length of the whole placeholder, braces included.
pub open spec fn ph_len(s: Seq<char>) -> nat {
    4 + wrun(s.skip(2))
}

/// The environment folded into a map; the first binding of a name wins.
pub open spec fn env_map(ps: Seq<(String, String)>) -> Map<Seq<char>, Seq<char>>
    decreases ps.len(),
{
    if ps.len() == 0 {
        Map::<Seq<char>, Seq<char>>::empty()
    } else {
        env_map(ps.drop_first()).insert(ps[0].0@, ps[0].1@)
    }
}

pub proof fn lemma_env_map_found(ps: Seq<(String, String)>, i: int, k: Seq<char>)
    requires
        0 <= i < ps.len(),
        ps[i].0@ == k,
        forall|j: int| 0 <= j < i ==> ps[j].0@ != k,
    ensures
        env_map(ps).contains_key(k),
        env_map(ps)[k] == ps[i].1@,
    decreases ps.len(),
{
    if i > 0 {
        lemma_env_map_found(ps.drop_first(), i - 1, k);
    }
}

pub proof fn lemma_env_map_absent(ps: Seq<(String, String)>, k: Seq<char>)
    requires
        forall|i: int| 0 <= i < ps.len() ==> ps[i].0@ != k,
    ensures
        !env_map(ps).contains_key(k),
    decreases ps.len(),
{
    if ps.len() > 0 {
        lemma_env_map_absent(ps.drop_first(), k);
    }
}

/// The expansion of one line against an environment: `Ok` with the
/// expanded text, or `Err` with the name of the first unbound
/// placeholder.
pub open spec fn expand_line_spec(s: Seq<char>, em: Map<Seq<char>, Seq<char>>) -> Result<
    Seq<char>,
    Seq<char>,
>
    decreases s.len(),
{
    if s.len() == 0 {
        Ok(Seq::<char>::empty())
    } else if placeholder_at(s) {
        if em.contains_key(ph_name(s)) {
            match expand_line_spec(s.skip(ph_len(s) as int), em) {
                Ok(t) => Ok(em[ph_name(s)] + t),
                Err(e) => Err(e),
            }
        } else {
            Err(ph_name(s))
        }
    } else {
        match expand_line_spec(s.drop_first(), em) {
            Ok(t) => Ok(seq![s[0]] + t),
            Err(e) => Err(e),
        }
    }
}

/// Looks a name up in the environment list; the first binding wins.
pub fn env_lookup<'a>(env: &'a Vec<(String, String)>, name: &str) -> (r: Option<&'a String>)
    ensures
        match r {
            Some(v) => env_map(env@).contains_key(name@) && v@ == env_map(env@)[name@],
            None => !env_map(env@).contains_key(name@),
        },
{
    let n = env.len();
    for i in 0..n
        invariant
            n == env@.len(),
            forall|k: int| 0 <= k < i ==> env@[k].0@ != name@,
    {
        if crate::text::str_eq(env[i].0.as_str(), name) {
            proof {
                lemma_env_map_found(env@, i as int, name@);
            }
            return Some(&env[i].1);
        }
    }
    proof {
        lemma_env_map_absent(env@, name@);
    }
    None
}

/// Detects a placeholder starting at character `i` and returns its name.
fn placeholder_here(s: &str, i: usize) -> (r: Option<String>)
    requires
        i < s@.len(),
    ensures
        match r {
            Some(nm) => placeholder_at(s@.skip(i as int)) && nm@ == ph_name(s@.skip(i as int)),
            None => !placeholder_at(s@.skip(i as int)),
        },
{
    let n = s.unicode_len();
    let ghost t = s@.skip(i as int);
    if s.get_char(i) != '{' {
        return None;
    }
    if i + 1 >= n {
        return None;
    }
    if s.get_char(i + 1) != '{' {
        return None;
    }
    let mut k = i + 2;
    while k < n && is_word_char(s.get_char(k))
        invariant
            n == s@.len(),
            i + 2 <= k <= n,
            forall|m: int| i + 2 <= m < k ==> word_char(s@[m]),
        decreases n - k,
    {
        k = k + 1;
    }
    proof {
        assert(t.skip(2) =~= s@.skip(i + 2));
        lemma_wrun_value(s@.skip(i + 2), k - (i + 2));
        assert(wrun(t.skip(2)) == k - (i + 2));
    }
    if k == i + 2 {
        return None;
    }
    if n - k < 2 {
        return None;
    }
    if s.get_char(k) != '}' {
        return None;
    }
    if s.get_char(k + 1) != '}' {
        return None;
    }
    let nm = String::from_str(s.substring_char(i + 2, k));
    proof {
        assert(ph_name(t) =~= s@.subrange(i + 2, k as int));
    }
    Some(nm)
}

/// Expands every placeholder of one line against the environment, in one
/// pass over the original text.
pub fn expand_line(s: &str, env: &Vec<(String, String)>) -> (r: Result<String, ParseError>)
    ensures
        match expand_line_spec(s@, env_map(env@)) {
            Ok(t) => r matches Ok(out) && out@ == t,
            Err(n) => r matches Err(e) && e@ == ErrModel::MissingVariable(n),
        },
{
    let ghost em = env_map(env@);
    let n = s.unicode_len();
    let mut acc = String::new();
    let mut i: usize = 0;
    proof {
        assert(s@.skip(0) =~= s@);
    }
    while i < n
        invariant
            n == s@.len(),
            0 <= i <= n,
            em == env_map(env@),
            match expand_line_spec(s@.skip(i as int), em) {
                Ok(t) => expand_line_spec(s@, em) == Ok::<Seq<char>, Seq<char>>(acc@ + t),
                Err(e) => expand_line_spec(s@, em) == Err::<Seq<char>, Seq<char>>(e),
            },
        decreases n - i,
    {
        let ghost t = s@.skip(i as int);
        match placeholder_here(s, i) {
            Some(nm) => {
                proof {
                    lemma_wrun(t.skip(2));
                    assert(t.skip(2) =~= s@.skip(i + 2));
                    assert(nm@.len() == wrun(t.skip(2)));
                    assert(4 + wrun(t.skip(2)) <= t.len());
                    assert(t.len() == n - i);
                }
                let run = nm.as_str().unicode_len();
                match env_lookup(env, nm.as_str()) {
                    Some(v) => {
                        let ghost acc0 = acc@;
                        acc.append(v.as_str());
                        proof {
                            assert(t.skip(ph_len(t) as int) =~= s@.skip(i + 4 + run));
                            match expand_line_spec(s@.skip(i + 4 + run), em) {
                                Ok(tt) => {
                                    assert(expand_line_spec(t, em) == Ok::<Seq<char>, Seq<char>>(em[nm@] + tt));
                                    assert(acc@ + tt =~= acc0 + (em[nm@] + tt));
                                },
                                Err(_) => {},
                            }
                        }
                        i = i + 4 + run;
                    },
                    None => {
                        proof {
                            assert(expand_line_spec(t, em) == Err::<Seq<char>, Seq<char>>(nm@));
                        }
                        return Err(ParseError::MissingVariable(nm));
                    },
                }
            },
            None => {
                let piece = s.substring_char(i, i + 1);
                let ghost acc0 = acc@;
                acc.append(piece);
                proof {
                    assert(t.len() > 0);
                    assert(t.drop_first() =~= s@.skip(i + 1));
                    assert(t[0] == s@[i as int]);
                    match expand_line_spec(s@.skip(i + 1), em) {
                        Ok(tt) => {
                            assert(expand_line_spec(t, em) == Ok::<Seq<char>, Seq<char>>(seq![t[0]] + tt));
                            assert(piece@ =~= seq![t[0]]);
                            assert(acc@ + tt =~= acc0 + (seq![t[0]] + tt));
                        },
                        Err(_) => {},
                    }
                }
                i = i + 1;
            },
        }
    }
    proof {
        assert(s@.skip(n as int) =~= Seq::<char>::empty());
        assert(acc@ + Seq::<char>::empty() =~= acc@);
    }
    Ok(acc)
}

/// A line in which no placeholder occurs expands to itself, whatever
/// the environment holds.
pub proof fn lemma_expand_identity(s: Seq<char>, em: Map<Seq<char>, Seq<char>>)
    requires
        forall|j: int| 0 <= j <= s.len() ==> !placeholder_at(#[trigger] s.skip(j)),
    ensures
        expand_line_spec(s, em) == Ok::<Seq<char>, Seq<char>>(s),
    decreases s.len(),
{
    if s.len() > 0 {
        assert(s.skip(0) =~= s);
        assert(!placeholder_at(s));
        assert forall|j: int| 0 <= j <= s.drop_first().len() implies !placeholder_at(
            #[trigger] s.drop_first().skip(j),
        ) by {
            assert(s.drop_first().skip(j) =~= s.skip(j + 1));
        }
        lemma_expand_identity(s.drop_first(), em);
        assert(seq![s[0]] + s.drop_first() =~= s);
    } else {
        assert(s =~= Seq::<char>::empty());
    }
}

/// If a placeholder with an unbound name occurs anywhere in the line,
/// the expansion fails.
pub proof fn lemma_expand_err_on_missing(s: Seq<char>, em: Map<Seq<char>, Seq<char>>, j: int)
    requires
        0 <= j <= s.len(),
        placeholder_at(s.skip(j)),
        !em.contains_key(ph_name(s.skip(j))),
    ensures
        expand_line_spec(s, em) is Err,
    decreases s.len(),
{
    lemma_wrun(s.skip(j).skip(2));
    if s.len() == 0 {
        assert(s.skip(j) =~= s);
    } else if placeholder_at(s) {
        if !em.contains_key(ph_name(s)) {
        } else {
            let w = wrun(s.skip(2)) as int;
            lemma_wrun(s.skip(2));
            if j == 0 {
                assert(s.skip(0) =~= s);
                assert(false);
            }
            assert(forall|k: int| 0 <= k < w ==> word_char(s.skip(2)[k]));
            assert forall|k: int| 2 <= k < 2 + w implies word_char(s[k]) by {
                assert(word_char(s.skip(2)[k - 2]));
            }
            if j < 4 + w {
                // no placeholder can start inside another one
                assert(s.skip(j)[0] == s[j]);
                assert(s.skip(j)[1] == s[j + 1]);
                if j == 1 {
                    assert(s[2] == '{');
                    assert(!word_char('{'));
                    assert(false);
                } else if j < 2 + w {
                    assert(word_char(s[j]));
                    assert(!word_char('{'));
                    assert(false);
                } else {
                    assert(s[j] == '}');
                    assert(false);
                }
            }
            let rest = s.skip(4 + w);
            assert(rest.skip(j - (4 + w)) =~= s.skip(j));
            lemma_expand_err_on_missing(rest, em, j - (4 + w));
        }
    } else {
        if j == 0 {
            assert(s.skip(0) =~= s);
            assert(false);
        }
        assert(s.drop_first().skip(j - 1) =~= s.skip(j));
        lemma_expand_err_on_missing(s.drop_first(), em, j - 1);
    }
}

} // verus!
