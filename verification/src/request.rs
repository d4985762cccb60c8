//! The request descriptor produced by the parser, and the parse errors.

use vstd::prelude::*;
use vstd::string::*;

use crate::text::{pair_views, str_eq};

verus! {

/// No two entries of the header list share a name.
pub open spec fn headers_unique(ps: Seq<(String, String)>) -> bool {
    forall|i: int, j: int| 0 <= i < j < ps.len() ==> ps[i].0@ != ps[j].0@
}

/// A classified parse failure.  Each variant carries the offending text:
/// the placeholder name for [`ParseError::MissingVariable`], the whole
/// line for the others.
#[derive(Debug)]
pub enum ParseError {
    /// A `{{NAME}}` placeholder referenced a variable that is not set.
    MissingVariable(String),
    /// A header-candidate line has no `:` separator.
    InvalidHeader(String),
    /// A parameter-candidate line has no `=`, or an empty key or value.
    InvalidURLParameter(String),
    /// The head line ends in a protocol token but has no URL before it.
    InvalidURL(String),
}

/// The mathematical shape of a [`ParseError`].
#[verifier::ext_equal]
pub enum ErrModel {
    MissingVariable(Seq<char>),
    InvalidHeader(Seq<char>),
    InvalidURLParameter(Seq<char>),
    InvalidURL(Seq<char>),
}

impl View for ParseError {
    type V = ErrModel;

    open spec fn view(&self) -> ErrModel {
        match self {
            ParseError::MissingVariable(s) => ErrModel::MissingVariable(s@),
            ParseError::InvalidHeader(s) => ErrModel::InvalidHeader(s@),
            ParseError::InvalidURLParameter(s) => ErrModel::InvalidURLParameter(s@),
            ParseError::InvalidURL(s) => ErrModel::InvalidURL(s@),
        }
    }
}

/// One HTTP request description, as read from one block of the file.
#[derive(Debug)]
pub struct Request {
    pub method: String,
    pub url: String,
    pub url_parameters: Vec<(String, String)>,
    pub headers: Vec<(String, String)>,
    pub protocol: String,
    pub body: String,
}

/// The mathematical shape of a [`Request`]: headers are a map from name
/// to value (names unique, last write wins), URL parameters an ordered
/// sequence of pairs.
#[verifier::ext_equal]
pub struct ReqModel {
    pub method: Seq<char>,
    pub url: Seq<char>,
    pub url_parameters: Seq<(Seq<char>, Seq<char>)>,
    pub headers: Map<Seq<char>, Seq<char>>,
    pub protocol: Seq<char>,
    pub body: Seq<char>,
}

/// The header list folded into a map, later entries overwriting earlier
/// ones of the same name.
pub open spec fn headers_map(ps: Seq<(String, String)>) -> Map<Seq<char>, Seq<char>>
    decreases ps.len(),
{
    if ps.len() == 0 {
        Map::<Seq<char>, Seq<char>>::empty()
    } else {
        headers_map(ps.drop_last()).insert(ps.last().0@, ps.last().1@)
    }
}

impl View for Request {
    type V = ReqModel;

    open spec fn view(&self) -> ReqModel {
        ReqModel {
            method: self.method@,
            url: self.url@,
            url_parameters: pair_views(self.url_parameters@),
            headers: headers_map(self.headers@),
            protocol: self.protocol@,
            body: self.body@,
        }
    }
}

/// The model of a freshly allocated request: everything empty but the
/// protocol, which defaults to `HTTP/1.1`.
pub open spec fn init_req() -> ReqModel {
    ReqModel {
        method: Seq::<char>::empty(),
        url: Seq::<char>::empty(),
        url_parameters: Seq::<(Seq<char>, Seq<char>)>::empty(),
        headers: Map::<Seq<char>, Seq<char>>::empty(),
        protocol: "HTTP/1.1"@,
        body: Seq::<char>::empty(),
    }
}

pub proof fn lemma_headers_map_absent(ps: Seq<(String, String)>, k: Seq<char>)
    requires
        forall|i: int| 0 <= i < ps.len() ==> ps[i].0@ != k,
    ensures
        !headers_map(ps).contains_key(k),
    decreases ps.len(),
{
    if ps.len() > 0 {
        assert(forall|i: int|
            0 <= i < ps.drop_last().len() ==> #[trigger] ps.drop_last()[i].0@ != k);
        lemma_headers_map_absent(ps.drop_last(), k);
    }
}

pub proof fn lemma_headers_map_found(ps: Seq<(String, String)>, i: int, k: Seq<char>)
    requires
        headers_unique(ps),
        0 <= i < ps.len(),
        ps[i].0@ == k,
    ensures
        headers_map(ps).contains_key(k),
        headers_map(ps)[k] == ps[i].1@,
    decreases ps.len(),
{
    if i == ps.len() - 1 {
    } else {
        assert(headers_unique(ps.drop_last())) by {
            assert(forall|a: int, b: int|
                0 <= a < b < ps.drop_last().len() ==> #[trigger] ps.drop_last()[a].0@
                    != #[trigger] ps.drop_last()[b].0@);
        }
        lemma_headers_map_found(ps.drop_last(), i, k);
        assert(ps.last().0@ != k);
    }
}

pub proof fn lemma_headers_map_update(ps: Seq<(String, String)>, i: int, p: (String, String))
    requires
        headers_unique(ps),
        0 <= i < ps.len(),
        ps[i].0@ == p.0@,
    ensures
        headers_map(ps.update(i, p)) == headers_map(ps).insert(p.0@, p.1@),
        headers_unique(ps.update(i, p)),
    decreases ps.len(),
{
    let n = ps.len() as int;
    assert(forall|a: int| 0 <= a < n && a != i ==> #[trigger] ps.update(i, p)[a] == ps[a]);
    assert(headers_unique(ps.update(i, p)));
    if i == n - 1 {
        assert(ps.update(i, p).drop_last() =~= ps.drop_last());
        assert(ps.update(i, p).last() == p);
        assert(headers_map(ps.drop_last()).insert(ps.last().0@, ps.last().1@).insert(p.0@, p.1@)
            =~= headers_map(ps.drop_last()).insert(p.0@, p.1@));
    } else {
        assert(headers_unique(ps.drop_last())) by {
            assert(forall|a: int, b: int|
                0 <= a < b < ps.drop_last().len() ==> #[trigger] ps.drop_last()[a].0@
                    != #[trigger] ps.drop_last()[b].0@);
        }
        lemma_headers_map_update(ps.drop_last(), i, p);
        assert(ps.update(i, p).drop_last() =~= ps.drop_last().update(i, p));
        assert(ps.update(i, p).last() == ps.last());
        assert(ps.last().0@ != p.0@);
        assert(headers_map(ps.drop_last()).insert(p.0@, p.1@).insert(ps.last().0@, ps.last().1@)
            =~= headers_map(ps.drop_last()).insert(ps.last().0@, ps.last().1@).insert(
            p.0@,
            p.1@,
        ));
    }
}

impl Request {
    /// A fresh, empty request: no method, URL, headers, parameters or
    /// body yet, and the default `HTTP/1.1` protocol label.
    pub fn new() -> (r: Request)
        ensures
            r@ == init_req(),
            headers_unique(r.headers@),
    {
        let r = Request {
            headers: Vec::new(),
            url: String::new(),
            url_parameters: Vec::new(),
            method: String::new(),
            protocol: String::from_str("HTTP/1.1"),
            body: String::new(),
        };
        proof {
            assert(pair_views(r.url_parameters@) =~= Seq::<(Seq<char>, Seq<char>)>::empty());
            assert(r@ =~= init_req());
        }
        r
    }

    /// Stores a header, overwriting the value of an existing header of
    /// the same name; header names stay unique.
    pub fn insert_header(&mut self, key: String, value: String)
        requires
            headers_unique(old(self).headers@),
        ensures
            headers_unique(final(self).headers@),
            final(self)@ == (ReqModel {
                headers: old(self)@.headers.insert(key@, value@),
                ..old(self)@
            }),
    {
        let n = self.headers.len();
        let mut i: usize = 0;
        while i < n
            invariant
                n == self.headers@.len(),
                0 <= i <= n,
                *self == *old(self),
                headers_unique(self.headers@),
                forall|k: int| 0 <= k < i ==> self.headers@[k].0@ != key@,
            decreases n - i,
        {
            if str_eq(self.headers[i].0.as_str(), key.as_str()) {
                proof {
                    lemma_headers_map_update(self.headers@, i as int, (key, value));
                    assert(self.headers@.remove(i as int).insert(i as int, (key, value))
                        =~= self.headers@.update(i as int, (key, value)));
                }
                self.headers.remove(i);
                self.headers.insert(i, (key, value));
                proof {
                    assert(pair_views(self.url_parameters@) == pair_views(
                        old(self).url_parameters@,
                    ));
                    assert(self@ =~= (ReqModel {
                        headers: old(self)@.headers.insert(key@, value@),
                        ..old(self)@
                    }));
                }
                return ;
            }
            i = i + 1;
        }
        proof {
            lemma_headers_map_absent(self.headers@, key@);
            assert(self.headers@.push((key, value)).drop_last() =~= self.headers@);
            assert(forall|a: int, b: int|
                0 <= a < b < self.headers@.push((key, value)).len()
                    ==> #[trigger] self.headers@.push((key, value))[a].0@
                    != #[trigger] self.headers@.push((key, value))[b].0@);
        }
        self.headers.push((key, value));
        proof {
            assert(self@ =~= (ReqModel {
                headers: old(self)@.headers.insert(key@, value@),
                ..old(self)@
            }));
        }
    }

    /// Looks a header up by name.
    pub fn get_header(&self, name: &str) -> (r: Option<&String>)
        requires
            headers_unique(self.headers@),
        ensures
            match r {
                Some(v) => self@.headers.contains_key(name@) && v@ == self@.headers[name@],
                None => !self@.headers.contains_key(name@),
            },
    {
        let n = self.headers.len();
        for i in 0..n
            invariant
                n == self.headers@.len(),
                headers_unique(self.headers@),
                forall|k: int| 0 <= k < i ==> self.headers@[k].0@ != name@,
        {
            if str_eq(self.headers[i].0.as_str(), name) {
                proof {
                    lemma_headers_map_found(self.headers@, i as int, name@);
                }
                return Some(&self.headers[i].1);
            }
        }
        proof {
            lemma_headers_map_absent(self.headers@, name@);
        }
        None
    }

    /// Whether a header of this name is stored.
    pub fn contains_header(&self, name: &str) -> (r: bool)
        requires
            headers_unique(self.headers@),
        ensures
            r == self@.headers.contains_key(name@),
    {
        self.get_header(name).is_some()
    }
}

} // verus!
