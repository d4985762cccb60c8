//! The per-block request parser and the whole-file parser.
//!
//! A block is parsed line by line by a two-phase state machine: during
//! the head phase the first substantive line yields method, URL and
//! optional protocol, later head lines yield headers (no leading
//! whitespace) or URL parameters (leading whitespace); the first blank
//! line after the URL switches to the body phase, which copies lines
//! verbatim.  Comment lines (`//` or `#`) are skipped in both phases.

use vstd::prelude::*;
use vstd::string::*;

use crate::request::{
    headers_unique, init_req, ErrModel, ParseError, ReqModel, Request,
};
use crate::text;
use crate::text::{
    digit_char, has_prefix, is_blank, join_nl, seq_views, split_char, split_once_at, trim,
    trim_start, ws_char,
};

verus! {

/// The full state of a block parse: the request built so far, whether
/// the head/body transition happened, and the body lines collected.
#[verifier::ext_equal]
pub struct ParserModel {
    pub req: ReqModel,
    pub head_done: bool,
    pub body_lines: Seq<Seq<char>>,
}

/// A comment line: `//...` or `#...` (which covers `###` markers too).
pub open spec fn is_comment_line(l: Seq<char>) -> bool {
    has_prefix(l, "//"@) || has_prefix(l, "#"@)
}

/// A request separator line: `###...`.
pub open spec fn is_marker_line(l: Seq<char>) -> bool {
    has_prefix(l, "###"@)
}

/// The fixed set of recognized HTTP method tokens.
pub open spec fn http_method(tok: Seq<char>) -> bool {
    ||| tok == "OPTIONS"@
    ||| tok == "GET"@
    ||| tok == "HEAD"@
    ||| tok == "POST"@
    ||| tok == "PUT"@
    ||| tok == "DELETE"@
    ||| tok == "TRACE"@
    ||| tok == "CONNECT"@
}

/// The method named by a head line: its first space-delimited token if
/// that is a recognized method, and `GET` otherwise.
pub open spec fn method_of(line: Seq<char>) -> Seq<char> {
    let tok = split_char(line, ' ')[0];
    if http_method(tok) {
        tok
    } else {
        "GET"@
    }
}

/// A token that ends in a protocol label: `HTTP/` and a digit, with an
/// optional `.` and second digit.
pub open spec fn protocol_tok(s: Seq<char>) -> bool {
    ||| (s.len() >= 6 && s.subrange(s.len() - 6, s.len() - 1) == "HTTP/"@ && digit_char(s.last()))
    ||| (s.len() >= 8 && s.subrange(s.len() - 8, s.len() - 3) == "HTTP/"@ && digit_char(
        s[s.len() - 3],
    ) && s[s.len() - 2] == '.' && digit_char(s.last()))
}

/// The effect of a header-candidate line.  A line with leading
/// whitespace is left to the parameter rule; otherwise it is cut at its
/// first `:`, and the value keeps any further `:` characters and loses
/// its leading whitespace.
pub open spec fn header_step(st: ParserModel, line: Seq<char>) -> Result<ParserModel, ErrModel> {
    if line.len() > 0 && ws_char(line[0]) {
        Ok(st)
    } else {
        match split_once_at(line, ':') {
            None => Err(ErrModel::InvalidHeader(line)),
            Some(kv) => Ok(
                ParserModel {
                    req: ReqModel {
                        headers: st.req.headers.insert(kv.0, trim_start(kv.1)),
                        ..st.req
                    },
                    ..st
                },
            ),
        }
    }
}

/// The effect of a parameter-candidate line.  A line without leading
/// whitespace is left to the header rule; otherwise it is trimmed, cut
/// at its first `=`, both sides must be non-empty, and the key loses its
/// first character (the `?` marker).
pub open spec fn param_step(st: ParserModel, line: Seq<char>) -> Result<ParserModel, ErrModel> {
    if !(line.len() > 0 && ws_char(line[0])) {
        Ok(st)
    } else {
        match split_once_at(trim_start(line), '=') {
            None => Err(ErrModel::InvalidURLParameter(line)),
            Some(kv) => if kv.0.len() == 0 || kv.1.len() == 0 {
                Err(ErrModel::InvalidURLParameter(line))
            } else {
                Ok(
                    ParserModel {
                        req: ReqModel {
                            url_parameters: st.req.url_parameters.push(
                                (kv.0.drop_first(), kv.1),
                            ),
                            ..st.req
                        },
                        ..st
                    },
                )
            },
        }
    }
}

/// The effect of reading the URL (and optional protocol) off a head
/// line: the last space-delimited token is the URL, unless it is a
/// protocol label, in which case the token before it is the URL — and a
/// protocol label with no token before it is an error.
pub open spec fn url_step(st: ParserModel, line: Seq<char>) -> Result<ParserModel, ErrModel> {
    let toks = split_char(line, ' ');
    let cand = toks.last();
    if protocol_tok(cand) && toks.len() > 2 {
        Ok(
            ParserModel {
                req: ReqModel { protocol: cand, url: toks[toks.len() - 2], ..st.req },
                ..st
            },
        )
    } else if protocol_tok(cand) {
        Err(ErrModel::InvalidURL(line))
    } else {
        Ok(ParserModel { req: ReqModel { url: cand, ..st.req }, ..st })
    }
}

/// The effect of one line on the parser state.  The rules, first match
/// wins: a blank line before the URL is skipped; a comment line is
/// skipped; in the body phase the raw line is appended; a blank line
/// after the URL switches to the body phase; otherwise the line is a
/// head line — a header or parameter when the URL is set, then the
/// method and URL if still unset.
pub open spec fn line_step(st: ParserModel, line: Seq<char>) -> Result<ParserModel, ErrModel> {
    if is_blank(line) && st.req.url.len() == 0 {
        Ok(st)
    } else if is_comment_line(line) {
        Ok(st)
    } else if st.head_done {
        Ok(ParserModel { body_lines: st.body_lines.push(line), ..st })
    } else if is_blank(line) {
        Ok(ParserModel { head_done: true, ..st })
    } else {
        let attr = if st.req.url.len() > 0 {
            if line.len() > 0 && ws_char(line[0]) {
                param_step(st, line)
            } else {
                header_step(st, line)
            }
        } else {
            Ok(st)
        };
        match attr {
            Err(e) => Err(e),
            Ok(st2) => {
                let st3 = if st2.req.method.len() == 0 {
                    ParserModel { req: ReqModel { method: method_of(line), ..st2.req }, ..st2 }
                } else {
                    st2
                };
                if st3.req.url.len() == 0 {
                    url_step(st3, line)
                } else {
                    Ok(st3)
                }
            },
        }
    }
}

/// The state machine folded over a sequence of lines; the first failing
/// line aborts the block.
pub open spec fn run_lines(st: ParserModel, lines: Seq<Seq<char>>) -> Result<
    ParserModel,
    ErrModel,
>
    decreases lines.len(),
{
    if lines.len() == 0 {
        Ok(st)
    } else {
        match line_step(st, lines[0]) {
            Err(e) => Err(e),
            Ok(st2) => run_lines(st2, lines.drop_first()),
        }
    }
}

/// The state of a freshly created parser.
pub open spec fn init_parser() -> ParserModel {
    ParserModel { req: init_req(), head_done: false, body_lines: Seq::<Seq<char>>::empty() }
}

/// End of block: the collected body lines are joined with newlines and
/// trimmed of surrounding whitespace.
pub open spec fn finish_state(st: ParserModel) -> ParserModel {
    ParserModel { req: ReqModel { body: trim(join_nl(st.body_lines)), ..st.req }, ..st }
}

/// The request described by one block of lines.
pub open spec fn parse_block(lines: Seq<Seq<char>>) -> Result<ReqModel, ErrModel> {
    match run_lines(init_parser(), lines) {
        Ok(st) => Ok(finish_state(st).req),
        Err(e) => Err(e),
    }
}

/// The lines grouped into blocks: every `###` line closes the block
/// before it and is itself discarded, so `n` marker lines give `n + 1`
/// blocks.
pub open spec fn blocks_of(lines: Seq<Seq<char>>) -> Seq<Seq<Seq<char>>>
    decreases lines.len(),
{
    if lines.len() == 0 {
        seq![Seq::<Seq<char>>::empty()]
    } else if is_marker_line(lines[0]) {
        seq![Seq::<Seq<char>>::empty()] + blocks_of(lines.drop_first())
    } else {
        let rest = blocks_of(lines.drop_first());
        seq![seq![lines[0]] + rest[0]] + rest.drop_first()
    }
}

/// How many `###` marker lines a sequence of lines holds.
pub open spec fn marker_count(lines: Seq<Seq<char>>) -> nat
    decreases lines.len(),
{
    if lines.len() == 0 {
        0
    } else {
        (if is_marker_line(lines[0]) {
            1nat
        } else {
            0nat
        }) + marker_count(lines.drop_first())
    }
}

/// Every block parsed in order; the first failing block aborts the
/// file.
pub open spec fn parse_blocks_spec(bs: Seq<Seq<Seq<char>>>) -> Result<Seq<ReqModel>, ErrModel>
    decreases bs.len(),
{
    if bs.len() == 0 {
        Ok(Seq::<ReqModel>::empty())
    } else {
        match parse_block(bs[0]) {
            Err(e) => Err(e),
            Ok(r) => match parse_blocks_spec(bs.drop_first()) {
                Err(e) => Err(e),
                Ok(rs) => Ok(seq![r] + rs),
            },
        }
    }
}

/// The models of a sequence of requests.
pub open spec fn req_views(v: Seq<Request>) -> Seq<ReqModel> {
    v.map_values(|q: Request| q@)
}

/// Parses one block of request text into a single [`Request`].
pub struct HTTPParser {
    pub request: Request,
    head_done: bool,
    body_buffer: Vec<String>,
}

impl View for HTTPParser {
    type V = ParserModel;

    closed spec fn view(&self) -> ParserModel {
        ParserModel {
            req: self.request@,
            head_done: self.head_done,
            body_lines: seq_views(self.body_buffer@),
        }
    }
}

impl HTTPParser {
    /// The parser's header list never holds two entries of one name.
    pub closed spec fn wf(&self) -> bool {
        headers_unique(self.request.headers@)
    }

    /// A fresh parser: empty request, head phase, no body collected.
    pub fn new() -> (r: Result<HTTPParser, ParseError>)
        ensures
            r matches Ok(p) && p@ == init_parser() && p.wf(),
    {
        let p = HTTPParser { request: Request::new(), head_done: false, body_buffer: Vec::new() };
        proof {
            assert(seq_views(p.body_buffer@) =~= Seq::<Seq<char>>::empty());
            assert(p@ =~= init_parser());
        }
        Ok(p)
    }

    /// A blank line, which ends the head region once the URL is known.
    pub fn is_section_break(line: &str) -> (r: bool)
        ensures
            r == is_blank(line@),
    {
        text::is_blank_str(line)
    }

    /// Whether a line can be a header or URL-parameter line: the URL is
    /// known, the line is not blank, and the body has not started.
    pub fn could_be_headers_or_attr(&mut self, line: &str) -> (r: bool)
        ensures
            *final(self) == *old(self),
            r == (old(self)@.req.url.len() > 0 && !is_blank(line@) && !old(self)@.head_done),
    {
        !self.request.url.as_str().is_empty() && !HTTPParser::is_section_break(line)
            && !self.head_done
    }

    /// Reads the method off a head line, falling back to `GET` for an
    /// unrecognized first token.
    pub fn parse_method(&mut self, line: &str)
        requires
            old(self).wf(),
        ensures
            final(self).wf(),
            final(self)@ == (ParserModel {
                req: ReqModel { method: method_of(line@), ..old(self)@.req },
                ..old(self)@
            }),
    {
        let toks = text::split_str(line, ' ');
        let tok = &toks[0];
        if is_http_method(tok.as_str()) {
            self.request.method = tok.clone();
        } else {
            self.request.method = String::from_str("GET");
        }
        proof {
            assert(toks@[0]@ == split_char(line@, ' ')[0]);
            assert(self@ =~= (ParserModel {
                req: ReqModel { method: method_of(line@), ..old(self)@.req },
                ..old(self)@
            }));
        }
    }

    /// Reads the URL, and the protocol if the line ends in a protocol
    /// label, off a head line.
    pub fn parse_url(&mut self, line: &str) -> (r: Result<(), ParseError>)
        requires
            old(self).wf(),
        ensures
            final(self).wf(),
            match url_step(old(self)@, line@) {
                Ok(st) => r is Ok && final(self)@ == st,
                Err(e) => r matches Err(pe) && pe@ == e && final(self)@ == old(self)@,
            },
    {
        let toks = text::split_str(line, ' ');
        let n = toks.len();
        proof {
            assert(toks@[n - 1]@ == split_char(line@, ' ').last());
        }
        if is_protocol_token(toks[n - 1].as_str()) {
            if n > 2 {
                self.request.protocol = toks[n - 1].clone();
                self.request.url = toks[n - 2].clone();
                proof {
                    assert(toks@[n - 2]@ == split_char(line@, ' ')[n - 2]);
                    assert(self@ =~= url_step(old(self)@, line@)->Ok_0);
                }
                Ok(())
            } else {
                Err(ParseError::InvalidURL(String::from_str(line)))
            }
        } else {
            self.request.url = toks[n - 1].clone();
            proof {
                assert(self@ =~= url_step(old(self)@, line@)->Ok_0);
            }
            Ok(())
        }
    }

    /// Stores a header line: the text before the first `:` is the name,
    /// the text after it — left-trimmed, further `:` kept — the value.
    /// A line with leading whitespace is left alone (it is a parameter
    /// candidate); one without a `:` is an error.
    pub fn parse_header(&mut self, line: &str) -> (r: Result<(), ParseError>)
        requires
            old(self).wf(),
        ensures
            final(self).wf(),
            match header_step(old(self)@, line@) {
                Ok(st) => r is Ok && final(self)@ == st,
                Err(e) => r matches Err(pe) && pe@ == e && final(self)@ == old(self)@,
            },
    {
        if text::has_leading_ws(line) {
            return Ok(());
        }
        match text::split_once_str(line, ':') {
            None => Err(ParseError::InvalidHeader(String::from_str(line))),
            Some((key, rest)) => {
                let value = text::trim_start_str(rest.as_str());
                self.request.insert_header(key, value);
                proof {
                    assert(self@ =~= header_step(old(self)@, line@)->Ok_0);
                }
                Ok(())
            },
        }
    }

    /// Stores a URL-parameter line: after the leading whitespace, the
    /// text before the first `=` minus its `?` marker is the key, the
    /// text after it the value; both must be non-empty.  A line without
    /// leading whitespace is left alone (it is a header candidate).
    pub fn parse_url_parameter(&mut self, line: &str) -> (r: Result<(), ParseError>)
        requires
            old(self).wf(),
        ensures
            final(self).wf(),
            match param_step(old(self)@, line@) {
                Ok(st) => r is Ok && final(self)@ == st,
                Err(e) => r matches Err(pe) && pe@ == e && final(self)@ == old(self)@,
            },
    {
        if !text::has_leading_ws(line) {
            return Ok(());
        }
        let trimmed = text::trim_start_str(line);
        match text::split_once_str(trimmed.as_str(), '=') {
            None => Err(ParseError::InvalidURLParameter(String::from_str(line))),
            Some((k, v)) => {
                if k.as_str().is_empty() || v.as_str().is_empty() {
                    return Err(ParseError::InvalidURLParameter(String::from_str(line)));
                }
                let klen = k.as_str().unicode_len();
                let key = String::from_str(k.as_str().substring_char(1, klen));
                proof {
                    assert(key@ =~= k@.drop_first());
                    assert(crate::text::pair_views(
                        self.request.url_parameters@.push((key, v)),
                    ) =~= crate::text::pair_views(self.request.url_parameters@).push(
                        (key@, v@),
                    ));
                }
                self.request.url_parameters.push((key, v));
                proof {
                    assert(self@ =~= param_step(old(self)@, line@)->Ok_0);
                }
                Ok(())
            },
        }
    }

    /// Feeds the lines of one block through the state machine, then
    /// joins and trims the collected body.  On an error the parser is
    /// left mid-parse and should be discarded.
    pub fn parse_lines(&mut self, lines: &Vec<String>) -> (r: Result<(), ParseError>)
        requires
            old(self).wf(),
        ensures
            final(self).wf(),
            match run_lines(old(self)@, seq_views(lines@)) {
                Ok(st) => r is Ok && final(self)@ == finish_state(st),
                Err(e) => r matches Err(pe) && pe@ == e,
            },
    {
        let ghost lv = seq_views(lines@);
        let n = lines.len();
        let mut i: usize = 0;
        proof {
            assert(lv.skip(0) =~= lv);
        }
        while i < n
            invariant
                n == lines@.len(),
                lv == seq_views(lines@),
                0 <= i <= n,
                self.wf(),
                run_lines(old(self)@, lv) == run_lines(self@, lv.skip(i as int)),
            decreases n - i,
        {
            let ghost pre = self@;
            proof {
                assert(lv.skip(i as int)[0] == lv[i as int]);
                assert(lv.skip(i as int).drop_first() =~= lv.skip(i + 1));
            }
            let line = lines[i].clone();
            if text::is_blank_str(line.as_str()) && self.request.url.as_str().is_empty() {
                // a blank line before the block's content starts
            } else if text::str_has_prefix(line.as_str(), "//") || text::str_has_prefix(
                line.as_str(),
                "#",
            ) {
                // a comment
            } else if self.head_done {
                // raw body: everything after the head section
                proof {
                    assert(seq_views(self.body_buffer@.push(line)) =~= seq_views(
                        self.body_buffer@,
                    ).push(line@));
                }
                self.body_buffer.push(line);
                proof {
                    assert(self@ =~= line_step(pre, lv[i as int])->Ok_0);
                }
            } else if HTTPParser::is_section_break(line.as_str())
                && !self.request.url.as_str().is_empty() {
                self.head_done = true;
                proof {
                    assert(self@ =~= line_step(pre, lv[i as int])->Ok_0);
                }
            } else {
                if self.could_be_headers_or_attr(line.as_str()) {
                    match self.parse_header(line.as_str()) {
                        Ok(()) => (),
                        Err(e) => {
                            proof {
                                assert(line_step(pre, lv[i as int]) == Err::<
                                    ParserModel,
                                    ErrModel,
                                >(e@));
                            }
                            return Err(e);
                        },
                    }
                    match self.parse_url_parameter(line.as_str()) {
                        Ok(()) => (),
                        Err(e) => {
                            proof {
                                assert(line_step(pre, lv[i as int]) == Err::<
                                    ParserModel,
                                    ErrModel,
                                >(e@));
                            }
                            return Err(e);
                        },
                    }
                }
                if self.request.method.as_str().is_empty() {
                    self.parse_method(line.as_str());
                }
                if self.request.url.as_str().is_empty() {
                    match self.parse_url(line.as_str()) {
                        Ok(()) => (),
                        Err(e) => {
                            proof {
                                assert(line_step(pre, lv[i as int]) == Err::<
                                    ParserModel,
                                    ErrModel,
                                >(e@));
                            }
                            return Err(e);
                        },
                    }
                }
                proof {
                    assert(line_step(pre, lv[i as int]) == Ok::<ParserModel, ErrModel>(self@));
                }
            }
            i = i + 1;
        }
        proof {
            assert(lv.skip(n as int) =~= Seq::<Seq<char>>::empty());
        }
        let joined = text::join_lines(&self.body_buffer);
        let body = text::trim_str(joined.as_str());
        self.request.body = body;
        proof {
            match run_lines(old(self)@, lv) {
                Ok(st) => {
                    assert(self@ =~= finish_state(st));
                },
                Err(_) => {},
            }
        }
        Ok(())
    }

    /// Parses one block of request text, line by line.
    pub fn parse(&mut self, contents: &str) -> (r: Result<(), ParseError>)
        requires
            old(self).wf(),
        ensures
            final(self).wf(),
            match run_lines(old(self)@, split_char(contents@, '\n')) {
                Ok(st) => r is Ok && final(self)@ == finish_state(st),
                Err(e) => r matches Err(pe) && pe@ == e,
            },
    {
        let lines = text::split_str(contents, '\n');
        self.parse_lines(&lines)
    }
}

/// The first block of a grouping grows by the given lines; a helper
/// shape used while scanning the file top to bottom.
pub open spec fn prepend_blocks(p: Seq<Seq<char>>, bs: Seq<Seq<Seq<char>>>) -> Seq<Seq<Seq<char>>>
    recommends
        bs.len() >= 1,
{
    seq![p + bs[0]] + bs.drop_first()
}

/// The line views of a sequence of line vectors.
pub open spec fn block_views(v: Seq<Vec<String>>) -> Seq<Seq<Seq<char>>> {
    v.map_values(|b: Vec<String>| seq_views(b@))
}

pub proof fn lemma_blocks_of_len(lines: Seq<Seq<char>>)
    ensures
        blocks_of(lines).len() >= 1,
    decreases lines.len(),
{
    if lines.len() > 0 {
        lemma_blocks_of_len(lines.drop_first());
    }
}

/// Every line of a file expanded against the environment, or the name
/// of the first unbound placeholder.
pub open spec fn expand_lines_spec(lines: Seq<Seq<char>>, em: Map<Seq<char>, Seq<char>>) -> Result<
    Seq<Seq<char>>,
    Seq<char>,
>
    decreases lines.len(),
{
    if lines.len() == 0 {
        Ok(Seq::<Seq<char>>::empty())
    } else {
        match crate::expand::expand_line_spec(lines[0], em) {
            Err(n) => Err(n),
            Ok(t) => match expand_lines_spec(lines.drop_first(), em) {
                Err(n) => Err(n),
                Ok(ts) => Ok(seq![t] + ts),
            },
        }
    }
}

/// The whole pipeline on raw text: expand each line, rejoin, split into
/// blocks at `###` lines, and parse every block.
pub open spec fn parse_text_spec(text_chars: Seq<char>, em: Map<Seq<char>, Seq<char>>) -> Result<
    Seq<ReqModel>,
    ErrModel,
>
{
    match expand_lines_spec(split_char(text_chars, '\n'), em) {
        Err(n) => Err(ErrModel::MissingVariable(n)),
        Ok(ls) => parse_blocks_spec(blocks_of(split_char(join_nl(ls), '\n'))),
    }
}

/// Splits a file's text into `###`-delimited blocks and parses each
/// into one [`Request`].
pub struct FileParser {}

impl FileParser {
    /// Parses a whole file's (already expanded) text: one request per
    /// `###`-delimited block, in file order; the first malformed block
    /// fails the whole parse.
    pub fn parse_many(self, file_content: &str) -> (r: Result<Vec<Request>, ParseError>)
        ensures
            match parse_blocks_spec(blocks_of(split_char(file_content@, '\n'))) {
                Ok(ms) => r matches Ok(v) && req_views(v@) == ms && (forall|k: int|
                    0 <= k < v@.len() ==> headers_unique(v@[k].headers@)),
                Err(e) => r matches Err(pe) && pe@ == e,
            },
    {
        let lines = text::split_str(file_content, '\n');
        let ghost lv = seq_views(lines@);
        let n = lines.len();
        let mut done: Vec<Vec<String>> = Vec::new();
        let mut cur: Vec<String> = Vec::new();
        let mut i: usize = 0;
        proof {
            lemma_blocks_of_len(lv);
            assert(lv.skip(0) =~= lv);
            let bs0 = blocks_of(lv);
            assert(Seq::<Seq<char>>::empty() + bs0[0] =~= bs0[0]);
            assert(prepend_blocks(seq_views(cur@), bs0) =~= bs0);
            assert(block_views(done@) + bs0 =~= bs0);
        }
        while i < n
            invariant
                n == lines@.len(),
                lv == seq_views(lines@),
                lv == split_char(file_content@, '\n'),
                0 <= i <= n,
                blocks_of(lv) == block_views(done@) + prepend_blocks(
                    seq_views(cur@),
                    blocks_of(lv.skip(i as int)),
                ),
            decreases n - i,
        {
            proof {
                lemma_blocks_of_len(lv.skip(i as int));
            }
            let line = lines[i].clone();
            proof {
                assert(lv.skip(i as int)[0] == lv[i as int]);
                assert(lv.skip(i as int).drop_first() =~= lv.skip(i + 1));
                lemma_blocks_of_len(lv.skip(i + 1));
            }
            if text::str_has_prefix(line.as_str(), "###") {
                proof {
                    let cv = seq_views(cur@);
                    let tail = blocks_of(lv.skip(i + 1));
                    assert(blocks_of(lv.skip(i as int)) =~= seq![Seq::<Seq<char>>::empty()]
                        + tail);
                    assert(prepend_blocks(cv, seq![Seq::<Seq<char>>::empty()] + tail) =~= seq![cv]
                        + tail);
                    assert(seq![tail[0]] + tail.drop_first() =~= tail);
                    assert(prepend_blocks(Seq::<Seq<char>>::empty(), tail) =~= tail);
                    assert(block_views(done@.push(cur)) =~= block_views(done@) + seq![cv]);
                }
                done.push(cur);
                cur = Vec::new();
                proof {
                    assert(seq_views(cur@) =~= Seq::<Seq<char>>::empty());
                }
            } else {
                proof {
                    let cv = seq_views(cur@);
                    let rest = blocks_of(lv.skip(i + 1));
                    let l = lv[i as int];
                    assert(blocks_of(lv.skip(i as int)) =~= seq![seq![l] + rest[0]]
                        + rest.drop_first());
                    assert(cv + (seq![l] + rest[0]) =~= (cv.push(l)) + rest[0]);
                    assert(prepend_blocks(cv, blocks_of(lv.skip(i as int))) =~= prepend_blocks(
                        cv.push(l),
                        rest,
                    ));
                    assert(seq_views(cur@.push(line)) =~= seq_views(cur@).push(l));
                }
                cur.push(line);
            }
            i = i + 1;
        }
        proof {
            assert(lv.skip(n as int) =~= Seq::<Seq<char>>::empty());
            let cv = seq_views(cur@);
            assert(prepend_blocks(cv, blocks_of(Seq::<Seq<char>>::empty())) =~= seq![cv]);
            assert(block_views(done@.push(cur)) =~= block_views(done@) + seq![cv]);
        }
        done.push(cur);
        let ghost bs = blocks_of(lv);
        proof {
            assert(bs == block_views(done@));
            assert(bs.skip(0) =~= bs);
        }
        let mut out: Vec<Request> = Vec::new();
        let m = done.len();
        proof {
            assert(req_views(out@) =~= Seq::<ReqModel>::empty());
            match parse_blocks_spec(bs) {
                Ok(ms) => {
                    assert(req_views(out@) + ms =~= ms);
                },
                Err(_) => {},
            }
        }
        let mut j: usize = 0;
        while j < m
            invariant
                m == done@.len(),
                bs == block_views(done@),
                bs == blocks_of(lv),
                lv == split_char(file_content@, '\n'),
                0 <= j <= m,
                match parse_blocks_spec(bs.skip(j as int)) {
                    Ok(ms) => parse_blocks_spec(bs) == Ok::<Seq<ReqModel>, ErrModel>(
                        req_views(out@) + ms,
                    ),
                    Err(e) => parse_blocks_spec(bs) == Err::<Seq<ReqModel>, ErrModel>(e),
                },
                forall|k: int| 0 <= k < out@.len() ==> headers_unique(out@[k].headers@),
            decreases m - j,
        {
            proof {
                assert(bs.skip(j as int)[0] == bs[j as int]);
                assert(bs.skip(j as int).drop_first() =~= bs.skip(j + 1));
                assert(bs[j as int] == seq_views(done@[j as int]@));
            }
            let mut p = match HTTPParser::new() {
                Ok(p) => p,
                Err(e) => {
                    return Err(e);
                },
            };
            match p.parse_lines(&done[j]) {
                Ok(()) => {
                    proof {
                        let ghost rm = p.request@;
                        assert(parse_block(bs[j as int]) == Ok::<ReqModel, ErrModel>(rm));
                        match parse_blocks_spec(bs.skip(j + 1)) {
                            Ok(ms) => {
                                assert(req_views(out@.push(p.request)) =~= req_views(out@) + seq![
                                    rm,
                                ]);
                                assert((req_views(out@) + seq![rm]) + ms =~= req_views(out@) + (
                                seq![rm] + ms));
                            },
                            Err(_) => {},
                        }
                    }
                    out.push(p.request);
                },
                Err(e) => {
                    proof {
                        assert(parse_blocks_spec(bs.skip(j as int)) == Err::<
                            Seq<ReqModel>,
                            ErrModel,
                        >(e@));
                    }
                    return Err(e);
                },
            }
            j = j + 1;
        }
        proof {
            assert(bs.skip(m as int) =~= Seq::<Seq<Seq<char>>>::empty());
            match parse_blocks_spec(bs) {
                Ok(ms) => {
                    assert(req_views(out@) + Seq::<ReqModel>::empty() =~= req_views(out@));
                },
                Err(_) => {},
            }
        }
        Ok(out)
    }

    /// Parses raw file text: expands every `{{NAME}}` placeholder from
    /// the given environment, then parses the expanded text block by
    /// block.
    pub fn parse_with_env(self, file_content: &str, env: &Vec<(String, String)>) -> (r: Result<
        Vec<Request>,
        ParseError,
    >)
        ensures
            match parse_text_spec(file_content@, crate::expand::env_map(env@)) {
                Ok(ms) => r matches Ok(v) && req_views(v@) == ms && (forall|k: int|
                    0 <= k < v@.len() ==> headers_unique(v@[k].headers@)),
                Err(e) => r matches Err(pe) && pe@ == e,
            },
    {
        let ghost em = crate::expand::env_map(env@);
        let lines = text::split_str(file_content, '\n');
        let ghost lv = seq_views(lines@);
        let n = lines.len();
        let mut expanded: Vec<String> = Vec::new();
        let mut i: usize = 0;
        proof {
            assert(lv.skip(0) =~= lv);
            match expand_lines_spec(lv, em) {
                Ok(ts) => {
                    assert(seq_views(expanded@) + ts =~= ts);
                },
                Err(_) => {},
            }
        }
        while i < n
            invariant
                n == lines@.len(),
                lv == seq_views(lines@),
                lv == split_char(file_content@, '\n'),
                em == crate::expand::env_map(env@),
                0 <= i <= n,
                match expand_lines_spec(lv.skip(i as int), em) {
                    Ok(ts) => expand_lines_spec(lv, em) == Ok::<Seq<Seq<char>>, Seq<char>>(
                        seq_views(expanded@) + ts,
                    ),
                    Err(e) => expand_lines_spec(lv, em) == Err::<Seq<Seq<char>>, Seq<char>>(e),
                },
            decreases n - i,
        {
            proof {
                assert(lv.skip(i as int)[0] == lv[i as int]);
                assert(lv.skip(i as int).drop_first() =~= lv.skip(i + 1));
            }
            match crate::expand::expand_line(lines[i].as_str(), env) {
                Ok(s) => {
                    proof {
                        match expand_lines_spec(lv.skip(i + 1), em) {
                            Ok(ts) => {
                                assert(seq_views(expanded@.push(s)) =~= seq_views(expanded@)
                                    + seq![s@]);
                                assert((seq_views(expanded@) + seq![s@]) + ts =~= seq_views(
                                    expanded@,
                                ) + (seq![s@] + ts));
                            },
                            Err(_) => {},
                        }
                    }
                    expanded.push(s);
                },
                Err(e) => {
                    proof {
                        match crate::expand::expand_line_spec(lv[i as int], em) {
                            Err(nm) => {
                                assert(expand_lines_spec(lv.skip(i as int), em) == Err::<
                                    Seq<Seq<char>>,
                                    Seq<char>,
                                >(nm));
                                assert(expand_lines_spec(lv, em) == Err::<
                                    Seq<Seq<char>>,
                                    Seq<char>,
                                >(nm));
                                assert(parse_text_spec(file_content@, em) == Err::<
                                    Seq<ReqModel>,
                                    ErrModel,
                                >(ErrModel::MissingVariable(nm)));
                            },
                            Ok(_) => {
                                assert(false);
                            },
                        }
                    }
                    return Err(e);
                },
            }
            i = i + 1;
        }
        proof {
            assert(lv.skip(n as int) =~= Seq::<Seq<char>>::empty());
            match expand_lines_spec(lv, em) {
                Ok(ts) => {
                    assert(seq_views(expanded@) + Seq::<Seq<char>>::empty() =~= seq_views(
                        expanded@,
                    ));
                },
                Err(_) => {},
            }
        }
        let joined = text::join_lines(&expanded);
        (FileParser {  }).parse_many(joined.as_str())
    }
}

/// Whether a token is one of the recognized HTTP methods.
pub fn is_http_method(tok: &str) -> (r: bool)
    ensures
        r == http_method(tok@),
{
    text::str_eq(tok, "OPTIONS") || text::str_eq(tok, "GET") || text::str_eq(tok, "HEAD")
        || text::str_eq(tok, "POST") || text::str_eq(tok, "PUT") || text::str_eq(tok, "DELETE")
        || text::str_eq(tok, "TRACE") || text::str_eq(tok, "CONNECT")
}

/// Whether a token ends in a protocol label, equal to [`protocol_tok`].
pub fn is_protocol_token(s: &str) -> (r: bool)
    ensures
        r == protocol_tok(s@),
{
    let n = s.unicode_len();
    let mut plain = false;
    let mut dotted = false;
    if n >= 6 {
        let head = s.substring_char(n - 6, n - 1);
        plain = text::str_eq(head, "HTTP/") && text::is_digit_char(s.get_char(n - 1));
    }
    if n >= 8 {
        let head = s.substring_char(n - 8, n - 3);
        dotted = text::str_eq(head, "HTTP/") && text::is_digit_char(s.get_char(n - 3))
            && s.get_char(n - 2) == '.' && text::is_digit_char(s.get_char(n - 1));
    }
    plain || dotted
}

// ---------------------------------------------------------------------
// Laws of the parser, stated over the specification model.
// ---------------------------------------------------------------------

pub proof fn lemma_block_count(lines: Seq<Seq<char>>)
    ensures
        blocks_of(lines).len() == marker_count(lines) + 1,
    decreases lines.len(),
{
    if lines.len() > 0 {
        lemma_block_count(lines.drop_first());
    }
}

pub proof fn lemma_parse_blocks_len(bs: Seq<Seq<Seq<char>>>)
    ensures
        parse_blocks_spec(bs) matches Ok(ms) ==> ms.len() == bs.len(),
    decreases bs.len(),
{
    if bs.len() > 0 {
        lemma_parse_blocks_len(bs.drop_first());
    }
}

/// A text with exactly `n` lines that start with `###` always parses —
/// when it parses at all — into exactly `n + 1` requests.
pub proof fn lemma_request_count(text_chars: Seq<char>)
    ensures
        parse_blocks_spec(blocks_of(split_char(text_chars, '\n'))) matches Ok(ms) ==> ms.len()
            == marker_count(split_char(text_chars, '\n')) + 1,
{
    lemma_block_count(split_char(text_chars, '\n'));
    lemma_parse_blocks_len(blocks_of(split_char(text_chars, '\n')));
}

pub proof fn lemma_step_keeps_method(st: ParserModel, line: Seq<char>)
    requires
        st.req.method.len() > 0,
    ensures
        line_step(st, line) matches Ok(st2) ==> st2.req.method == st.req.method,
{
}

pub proof fn lemma_run_keeps_method(st: ParserModel, lines: Seq<Seq<char>>)
    requires
        st.req.method.len() > 0,
    ensures
        run_lines(st, lines) matches Ok(st2) ==> st2.req.method == st.req.method,
    decreases lines.len(),
{
    if lines.len() > 0 {
        lemma_step_keeps_method(st, lines[0]);
        match line_step(st, lines[0]) {
            Ok(st1) => {
                lemma_run_keeps_method(st1, lines.drop_first());
            },
            Err(_) => {},
        }
    }
}

/// A block whose first substantive line (the first line that is neither
/// blank nor a comment) does not begin with a recognized method token
/// is parsed with method `GET`.
pub proof fn lemma_default_method(lines: Seq<Seq<char>>, i: int)
    requires
        0 <= i < lines.len(),
        !is_blank(lines[i]),
        !is_comment_line(lines[i]),
        forall|k: int| 0 <= k < i ==> is_blank(#[trigger] lines[k]) || is_comment_line(lines[k]),
        !http_method(split_char(lines[i], ' ')[0]),
    ensures
        parse_block(lines) matches Ok(r) ==> r.method == "GET"@,
    decreases i,
{
    reveal_strlit("GET");
    if i == 0 {
        match line_step(init_parser(), lines[0]) {
            Ok(st1) => {
                assert(st1.req.method == "GET"@);
                lemma_run_keeps_method(st1, lines.drop_first());
            },
            Err(_) => {},
        }
    } else {
        assert(line_step(init_parser(), lines[0]) == Ok::<ParserModel, ErrModel>(init_parser()));
        assert(forall|k: int|
            0 <= k < i - 1 ==> is_blank(#[trigger] lines.drop_first()[k]) || is_comment_line(
                lines.drop_first()[k],
            ));
        assert(lines.drop_first()[i - 1] == lines[i]);
        lemma_default_method(lines.drop_first(), i - 1);
    }
}

pub proof fn lemma_step_head_done_monotone(st: ParserModel, line: Seq<char>)
    requires
        st.head_done,
    ensures
        line_step(st, line) matches Ok(st2) ==> st2.head_done,
{
}

pub proof fn lemma_run_head_done_monotone(st: ParserModel, lines: Seq<Seq<char>>)
    requires
        st.head_done,
    ensures
        run_lines(st, lines) matches Ok(st2) ==> st2.head_done,
    decreases lines.len(),
{
    if lines.len() > 0 {
        lemma_step_head_done_monotone(st, lines[0]);
        match line_step(st, lines[0]) {
            Ok(st1) => {
                lemma_run_head_done_monotone(st1, lines.drop_first());
            },
            Err(_) => {},
        }
    }
}

pub proof fn lemma_no_transition_no_body_lines(st: ParserModel, lines: Seq<Seq<char>>)
    requires
        !st.head_done,
    ensures
        (run_lines(st, lines) matches Ok(st2) && !st2.head_done) ==> run_lines(
            st,
            lines,
        )->Ok_0.body_lines == st.body_lines,
    decreases lines.len(),
{
    if lines.len() > 0 {
        match line_step(st, lines[0]) {
            Ok(st1) => {
                if st1.head_done {
                    lemma_run_head_done_monotone(st1, lines.drop_first());
                } else {
                    assert(st1.body_lines == st.body_lines);
                    lemma_no_transition_no_body_lines(st1, lines.drop_first());
                }
            },
            Err(_) => {},
        }
    }
}

/// A block in which the head/body transition never fires — no blank
/// line ever separates the head from later content — has `body == ""`.
pub proof fn lemma_no_separator_no_body(lines: Seq<Seq<char>>)
    requires
        run_lines(init_parser(), lines) matches Ok(st) && !st.head_done,
    ensures
        parse_block(lines) matches Ok(r) && r.body == Seq::<char>::empty(),
{
    lemma_no_transition_no_body_lines(init_parser(), lines);
    let st = run_lines(init_parser(), lines)->Ok_0;
    assert(st.body_lines =~= Seq::<Seq<char>>::empty());
    assert(join_nl(st.body_lines) == Seq::<char>::empty());
}

pub proof fn lemma_no_blank_keeps_head(st: ParserModel, lines: Seq<Seq<char>>)
    requires
        !st.head_done,
        forall|k: int| 0 <= k < lines.len() ==> !is_blank(#[trigger] lines[k]),
    ensures
        run_lines(st, lines) matches Ok(st2) ==> !st2.head_done,
    decreases lines.len(),
{
    if lines.len() > 0 {
        match line_step(st, lines[0]) {
            Ok(st1) => {
                assert(!is_blank(lines[0]));
                assert(!st1.head_done);
                assert(forall|k: int|
                    0 <= k < lines.drop_first().len() ==> !is_blank(
                        #[trigger] lines.drop_first()[k],
                    ));
                lemma_no_blank_keeps_head(st1, lines.drop_first());
            },
            Err(_) => {},
        }
    }
}

/// A block that holds no blank line at all has `body == ""`.
pub proof fn lemma_no_blank_no_body(lines: Seq<Seq<char>>)
    requires
        forall|k: int| 0 <= k < lines.len() ==> !is_blank(#[trigger] lines[k]),
    ensures
        parse_block(lines) matches Ok(r) ==> r.body == Seq::<char>::empty(),
{
    lemma_no_blank_keeps_head(init_parser(), lines);
    match run_lines(init_parser(), lines) {
        Ok(st) => {
            lemma_no_separator_no_body(lines);
        },
        Err(_) => {},
    }
}

/// The lines that are not comments.
pub open spec fn strip_comments(lines: Seq<Seq<char>>) -> Seq<Seq<char>>
    decreases lines.len(),
{
    if lines.len() == 0 {
        Seq::<Seq<char>>::empty()
    } else if is_comment_line(lines[0]) {
        strip_comments(lines.drop_first())
    } else {
        seq![lines[0]] + strip_comments(lines.drop_first())
    }
}

pub proof fn lemma_comment_line_skipped(st: ParserModel, line: Seq<char>)
    requires
        is_comment_line(line),
    ensures
        line_step(st, line) == Ok::<ParserModel, ErrModel>(st),
{
    reveal_strlit("//");
    reveal_strlit("#");
    if has_prefix(line, "//"@) {
        assert(line.subrange(0, 2)[0] == line[0]);
        assert(line[0] == '/');
    } else {
        assert(line.subrange(0, 1)[0] == line[0]);
        assert(line[0] == '#');
    }
    assert(!ws_char(line[0]));
    assert(!is_blank(line));
}

/// Comment lines contribute nothing: a run over any lines equals the
/// run over the same lines with every comment removed, in any state —
/// so comments never reach headers, parameters or the body.
pub proof fn lemma_comments_ignored(st: ParserModel, lines: Seq<Seq<char>>)
    ensures
        run_lines(st, lines) == run_lines(st, strip_comments(lines)),
    decreases lines.len(),
{
    if lines.len() == 0 {
    } else if is_comment_line(lines[0]) {
        lemma_comment_line_skipped(st, lines[0]);
        lemma_comments_ignored(st, lines.drop_first());
    } else {
        assert(strip_comments(lines)[0] == lines[0]);
        assert(strip_comments(lines).drop_first() =~= strip_comments(lines.drop_first()));
        match line_step(st, lines[0]) {
            Ok(st1) => {
                lemma_comments_ignored(st1, lines.drop_first());
            },
            Err(_) => {},
        }
    }
}

/// The block-level corollary: a block parses exactly as the same block
/// with its comment lines removed.
pub proof fn lemma_parse_block_ignores_comments(lines: Seq<Seq<char>>)
    ensures
        parse_block(lines) == parse_block(strip_comments(lines)),
{
    lemma_comments_ignored(init_parser(), lines);
}

} // verus!
