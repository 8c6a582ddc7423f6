//! Requests, and the parser that reads one from the bytes a client sent.

use vstd::prelude::*;
use vstd::string::StringSliceAdditionalSpecFns;
use crate::assoc::entered;
use crate::bytes::{
    find, is_number, is_position, is_word, lemma_position, lemma_position_exists, number,
    optional, parse_number, pieces, position, split, split_whitespace, to_vec, views, words,
    AMPERSAND, COLON, CR, EQUALS, LF, QUESTION, SPACE,
};
use crate::fields::{Entry, Fields};

verus! {

/// The request methods that the server answers.
#[derive(Clone, Copy, Debug, PartialEq, Eq, Structural)]
pub enum HTTPMethod {
    Get,
    Post,
}

/// Why a request could not be read.
#[derive(Clone, Copy, Debug, PartialEq, Eq, Structural)]
pub enum ParseError {
    /// The first line is not made of exactly three words.
    MalformedRequestLine,
    /// The method is none of those in `HTTPMethod`.
    UnsupportedMethod,
    /// A header line does not hold `": "` exactly once, or `Content-Length`
    /// is not a decimal number.
    MalformedHeader,
    /// A part of the query has no `=`.
    MalformedQueryParam,
    /// Fewer bytes follow the head than `Content-Length` announces.
    TruncatedBody,
}

impl ParseError {
    /// What went wrong, in words.
    pub fn message(&self) -> (text: &'static str)
        ensures
            text@ == match self {
                ParseError::MalformedRequestLine => "the request line is not made of three words"@,
                ParseError::UnsupportedMethod => "the method is not supported"@,
                ParseError::MalformedHeader => "a header is malformed"@,
                ParseError::MalformedQueryParam => "a query parameter has no value"@,
                ParseError::TruncatedBody => "the body is shorter than announced"@,
            },
    {
        match self {
            ParseError::MalformedRequestLine => "the request line is not made of three words",
            ParseError::UnsupportedMethod => "the method is not supported",
            ParseError::MalformedHeader => "a header is malformed",
            ParseError::MalformedQueryParam => "a query parameter has no value",
            ParseError::TruncatedBody => "the body is shorter than announced",
        }
    }
}

/// The first line of `s`: what stands before the first line feed, without the
/// carriage return that may precede it; all of `s` if it holds no line feed.
pub open spec fn first_line(s: Seq<u8>) -> Seq<u8> {
    let end = position(s, LF);
    if 0 < end < s.len() && s[end - 1] == CR {
        s.take(end - 1)
    } else {
        s.take(end)
    }
}

/// How many bytes of `s` its first line takes, delimiter included.
pub open spec fn first_line_length(s: Seq<u8>) -> int {
    let end = position(s, LF);
    if end < s.len() {
        end + 1
    } else {
        s.len() as int
    }
}

/// The lines of the head of `s`: those before the first empty line, or all
/// lines if none is empty.
pub open spec fn head(s: Seq<u8>) -> Seq<Seq<u8>>
    decreases s.len(),
    via head_decreases
{
    if s.len() == 0 || first_line(s).len() == 0 {
        Seq::empty()
    } else {
        seq![first_line(s)] + head(s.skip(first_line_length(s)))
    }
}

#[via_fn]
proof fn head_decreases(s: Seq<u8>) {
    lemma_position_exists(s, LF);
}

/// How many bytes of `s` the head takes, the empty line after it included.
pub open spec fn head_length(s: Seq<u8>) -> int
    decreases s.len(),
    via head_length_decreases
{
    if s.len() == 0 {
        0
    } else if first_line(s).len() == 0 {
        first_line_length(s)
    } else {
        first_line_length(s) + head_length(s.skip(first_line_length(s)))
    }
}

#[via_fn]
proof fn head_length_decreases(s: Seq<u8>) {
    lemma_position_exists(s, LF);
}

/// Whether the head of `s` is closed: an empty line ends it. Until it is, more
/// bytes from the client may still add to the head.
pub open spec fn head_closed(s: Seq<u8>) -> bool
    decreases s.len(),
    via head_closed_decreases
{
    if s.len() == 0 {
        false
    } else if first_line(s).len() == 0 {
        true
    } else {
        head_closed(s.skip(first_line_length(s)))
    }
}

#[via_fn]
proof fn head_closed_decreases(s: Seq<u8>) {
    lemma_position_exists(s, LF);
}

/// The method that `word` names.
pub open spec fn method_of(word: Seq<u8>) -> Option<HTTPMethod> {
    if word == "GET".spec_bytes() {
        Some(HTTPMethod::Get)
    } else if word == "POST".spec_bytes() {
        Some(HTTPMethod::Post)
    } else {
        None
    }
}

/// The path of a request target: what stands before the first `?`.
pub open spec fn path_of(target: Seq<u8>) -> Seq<u8> {
    target.take(position(target, QUESTION))
}

/// The query of a request target: what stands after the first `?`, if there is one.
pub open spec fn query_of(target: Seq<u8>) -> Option<Seq<u8>> {
    let at = position(target, QUESTION);
    if at < target.len() {
        Some(target.skip(at + 1))
    } else {
        None
    }
}

/// Whether `part` holds a `=`, and so is a parameter with a name and a value.
pub open spec fn is_parameter(part: Seq<u8>) -> bool {
    position(part, EQUALS) < part.len()
}

/// The name and the value of a parameter: what stands before and after its first `=`.
pub open spec fn parameter(part: Seq<u8>) -> Entry {
    (part.take(position(part, EQUALS)), part.skip(position(part, EQUALS) + 1))
}

/// The parts of a query: what stands between its `&`.
pub open spec fn query_parts(query: Seq<u8>) -> Seq<Seq<u8>> {
    pieces(query, AMPERSAND)
}

/// Whether every part of `query` is a parameter.
pub open spec fn is_query(query: Seq<u8>) -> bool {
    forall|i: int|
        0 <= i < query_parts(query).len() ==> is_parameter(#[trigger] query_parts(query)[i])
}

/// The parameters of `query`, each name with the value that its last occurrence gives it.
pub open spec fn query_params(query: Seq<u8>) -> Map<Seq<u8>, Seq<u8>> {
    entered(Seq::new(query_parts(query).len(), |i: int| parameter(query_parts(query)[i])))
}

/// Whether `": "` stands at index `i` of `line`.
pub open spec fn is_separator(line: Seq<u8>, i: int) -> bool {
    0 <= i && i + 1 < line.len() && line[i] == COLON && line[i + 1] == SPACE
}

/// Whether `line` holds `": "` exactly once.
pub open spec fn is_header(line: Seq<u8>) -> bool {
    exists|i: int| #[trigger]
        is_separator(line, i) && forall|j: int| #[trigger] is_separator(line, j) ==> j == i
}

/// Where `": "` stands in `line`.
pub open spec fn separator(line: Seq<u8>) -> int {
    choose|i: int| is_separator(line, i)
}

/// The name and the value of a header line: what stands before and after its `": "`.
pub open spec fn header(line: Seq<u8>) -> Entry {
    (line.take(separator(line)), line.skip(separator(line) + 2))
}

/// Whether every line of `lines` is a header.
pub open spec fn are_headers(lines: Seq<Seq<u8>>) -> bool {
    forall|i: int| 0 <= i < lines.len() ==> is_header(#[trigger] lines[i])
}

/// The headers that `lines` give, each name with the value of its last line.
pub open spec fn headers_of(lines: Seq<Seq<u8>>) -> Map<Seq<u8>, Seq<u8>> {
    entered(Seq::new(lines.len(), |i: int| header(lines[i])))
}

/// A request as the parser and the router leave it.
#[derive(Debug)]
pub struct Request {
    pub http_method: HTTPMethod,
    /// The path of the request target, without the query.
    pub target: Vec<u8>,
    pub http_version: Vec<u8>,
    pub headers: Fields,
    /// The body, present exactly if the request announced its length.
    pub body: Option<Vec<u8>>,
    /// The values that the matched route bound; empty until the router has run.
    pub path_variables: Fields,
    pub query_params: Fields,
}

/// What a `Request` holds, as mathematical values.
pub ghost struct RequestView {
    pub http_method: HTTPMethod,
    pub target: Seq<u8>,
    pub http_version: Seq<u8>,
    pub headers: Map<Seq<u8>, Seq<u8>>,
    pub body: Option<Seq<u8>>,
    pub path_variables: Map<Seq<u8>, Seq<u8>>,
    pub query_params: Map<Seq<u8>, Seq<u8>>,
}

impl View for Request {
    type V = RequestView;

    open spec fn view(&self) -> RequestView {
        RequestView {
            http_method: self.http_method,
            target: self.target@,
            http_version: self.http_version@,
            headers: self.headers@,
            body: optional(self.body),
            path_variables: self.path_variables@,
            query_params: self.query_params@,
        }
    }
}

impl Clone for Request {
    fn clone(&self) -> (copy: Request)
        ensures
            copy@ == self@,
    {
        Request {
            http_method: self.http_method,
            target: to_vec(self.target.as_slice()),
            http_version: to_vec(self.http_version.as_slice()),
            headers: self.headers.clone(),
            body: match &self.body {
                Some(bytes) => Some(to_vec(bytes.as_slice())),
                None => None,
            },
            path_variables: self.path_variables.clone(),
            query_params: self.query_params.clone(),
        }
    }
}

/// The body that follows a head with the given headers, where `rest` is what
/// the client sent after the head.
pub open spec fn body_of(headers: Map<Seq<u8>, Seq<u8>>, rest: Seq<u8>) -> Result<
    Option<Seq<u8>>,
    ParseError,
> {
    if !headers.contains_key("Content-Length".spec_bytes()) {
        Ok(None)
    } else {
        match number(headers["Content-Length".spec_bytes()]) {
            None => Err(ParseError::MalformedHeader),
            Some(n) => if n > rest.len() {
                Err(ParseError::TruncatedBody)
            } else {
                Ok(Some(rest.take(n as int)))
            },
        }
    }
}

/// The request that the bytes `input` hold, or the reason why they hold none.
///
/// The head is read line by line up to the first empty line. Its first line
/// must be three words: a method, a target and a version. The lines after it
/// are headers. If they announce a `Content-Length`, that many bytes after
/// the head are the body. The first fault found, in this order, is reported.
pub open spec fn parse(input: Seq<u8>) -> Result<RequestView, ParseError> {
    let lines = head(input);
    let rest = input.skip(head_length(input));
    let line = if lines.len() > 0 {
        lines[0]
    } else {
        Seq::empty()
    };
    let tokens = words(line);
    if tokens.len() != 3 {
        Err(ParseError::MalformedRequestLine)
    } else if method_of(tokens[0]) is None {
        Err(ParseError::UnsupportedMethod)
    } else if query_of(tokens[1]) is Some && !is_query(query_of(tokens[1])->0) {
        Err(ParseError::MalformedQueryParam)
    } else if !are_headers(lines.skip(1)) {
        Err(ParseError::MalformedHeader)
    } else {
        let headers = headers_of(lines.skip(1));
        match body_of(headers, rest) {
            Err(e) => Err(e),
            Ok(body) => Ok(
                RequestView {
                    http_method: method_of(tokens[0])->0,
                    target: path_of(tokens[1]),
                    http_version: tokens[2],
                    headers,
                    body,
                    path_variables: Map::empty(),
                    query_params: match query_of(tokens[1]) {
                        Some(query) => query_params(query),
                        None => Map::empty(),
                    },
                },
            ),
        }
    }
}

/// Reads the lines of the head of `input`, and tells how many bytes they
/// take and whether an empty line closes them.
pub fn read_head(input: &[u8]) -> (out: (Vec<Vec<u8>>, usize, bool))
    ensures
        views(out.0@) == head(input@),
        out.1 == head_length(input@),
        out.1 <= input.len(),
        out.2 == head_closed(input@),
{
    let mut lines: Vec<Vec<u8>> = Vec::new();
    let mut pos: usize = 0;
    let mut closed = false;
    proof {
        assert(input@.skip(0) =~= input@);
        assert(views(lines@) + head(input@) =~= head(input@));
    }
    loop
        invariant_except_break
            pos <= input.len(),
            head(input@) == views(lines@) + head(input@.skip(pos as int)),
            head_length(input@) == pos + head_length(input@.skip(pos as int)),
            head_closed(input@) == head_closed(input@.skip(pos as int)),
            !closed,
        ensures
            pos <= input.len(),
            views(lines@) == head(input@),
            pos == head_length(input@),
            closed == head_closed(input@),
        decreases input.len() - pos,
    {
        let ghost tail = input@.skip(pos as int);
        if pos == input.len() {
            proof {
                assert(tail.len() == 0);
                assert(views(lines@) + head(tail) =~= views(lines@));
            }
            break;
        }
        let end = find(input, pos, LF);
        proof {
            lemma_position_exists(tail, LF);
        }
        let next: usize = if end < input.len() {
            end + 1
        } else {
            end
        };
        let stop: usize = if pos < end && end < input.len() && input[end - 1] == CR {
            end - 1
        } else {
            end
        };
        proof {
            if pos < end && end < input.len() {
                assert(tail[end - pos - 1] == input@[end - 1]);
            }
            assert(first_line_length(tail) == next - pos);
            assert(input@.subrange(pos as int, stop as int) =~= first_line(tail));
            assert(tail.skip(next - pos) =~= input@.skip(next as int));
        }
        if stop == pos {
            proof {
                assert(first_line(tail).len() == 0);
                assert(views(lines@) + head(tail) =~= views(lines@));
            }
            pos = next;
            closed = true;
            break;
        }
        let ghost before = views(lines@);
        lines.push(to_vec(&input[pos..stop]));
        proof {
            assert(views(lines@) =~= before + seq![first_line(tail)]);
            assert(head(tail) =~= seq![first_line(tail)] + head(input@.skip(next as int)));
            assert(head(input@) =~= views(lines@) + head(input@.skip(next as int)));
        }
        pos = next;
    }
    (lines, pos, closed)
}

/// Reads a method name.
pub fn parse_method(word: &[u8]) -> (method: Option<HTTPMethod>)
    ensures
        method == method_of(word@),
{
    if is_word(word, "GET") {
        Some(HTTPMethod::Get)
    } else if is_word(word, "POST") {
        Some(HTTPMethod::Post)
    } else {
        None
    }
}

/// Reads the parameters of a query. `None` if one of its parts has no `=`.
pub fn parse_query(query: &[u8]) -> (out: Option<Fields>)
    ensures
        match out {
            Some(params) => is_query(query@) && params@ == query_params(query@),
            None => !is_query(query@),
        },
{
    let parts = split(query, AMPERSAND);
    let ghost pairs = Seq::new(
        query_parts(query@).len(),
        |i: int| parameter(query_parts(query@)[i]),
    );
    let mut params = Fields::new();
    let mut i: usize = 0;
    proof {
        assert(pairs.take(0) =~= Seq::<Entry>::empty());
    }
    while i < parts.len()
        invariant
            i <= parts.len(),
            views(parts@) == query_parts(query@),
            pairs == Seq::new(
                query_parts(query@).len(),
                |i: int| parameter(query_parts(query@)[i]),
            ),
            forall|j: int| 0 <= j < i ==> is_parameter(#[trigger] query_parts(query@)[j]),
            params@ == entered(pairs.take(i as int)),
        decreases parts.len() - i,
    {
        let part = parts[i].as_slice();
        assert(part@ == views(parts@)[i as int]);
        let at = find(part, 0, EQUALS);
        proof {
            assert(part@.skip(0) =~= part@);
        }
        if at == part.len() {
            assert(!is_parameter(query_parts(query@)[i as int]));
            return None;
        }
        let name = to_vec(&part[0..at]);
        let value = to_vec(&part[at + 1..part.len()]);
        proof {
            assert(name@ =~= parameter(part@).0);
            assert(value@ =~= parameter(part@).1);
            assert(pairs.take(i + 1).drop_last() =~= pairs.take(i as int));
            assert(pairs.take(i + 1).last() == parameter(part@));
        }
        params.insert(name, value);
        i += 1;
    }
    proof {
        assert(pairs.take(parts.len() as int) =~= pairs);
    }
    Some(params)
}

/// Splits a header line into its name and its value. `None` if the line does
/// not hold `": "` exactly once.
pub fn split_header(line: &[u8]) -> (out: Option<(Vec<u8>, Vec<u8>)>)
    ensures
        match out {
            Some(pair) => is_header(line@) && (pair.0@, pair.1@) == header(line@),
            None => !is_header(line@),
        },
{
    if line.len() < 2 {
        assert forall|i: int| !is_separator(line@, i) by {}
        return None;
    }
    let mut found: Option<usize> = None;
    let mut i: usize = 0;
    while i < line.len() - 1
        invariant
            line.len() >= 2,
            i <= line.len() - 1,
            match found {
                Some(at) => at < i && is_separator(line@, at as int) && forall|j: int|
                    0 <= j < i && #[trigger] is_separator(line@, j) ==> j == at,
                None => forall|j: int| 0 <= j < i ==> !#[trigger] is_separator(line@, j),
            },
        decreases line.len() - i,
    {
        if line[i] == COLON && line[i + 1] == SPACE {
            assert(is_separator(line@, i as int));
            if let Some(at) = found {
                assert(is_separator(line@, at as int));
                assert(!is_header(line@));
                return None;
            }
            found = Some(i);
        }
        i += 1;
    }
    match found {
        None => {
            assert forall|j: int| !is_separator(line@, j) by {}
            None
        },
        Some(at) => {
            proof {
                assert forall|j: int| #[trigger] is_separator(line@, j) implies j == at by {}
                assert(is_header(line@));
                assert(separator(line@) == at);
            }
            let name = to_vec(&line[0..at]);
            let value = to_vec(&line[at + 2..line.len()]);
            proof {
                assert(name@ =~= header(line@).0);
                assert(value@ =~= header(line@).1);
            }
            Some((name, value))
        },
    }
}

/// Reads the header lines `lines[from..]`. `None` if one of them is no header.
pub fn parse_headers(lines: &Vec<Vec<u8>>, from: usize) -> (out: Option<Fields>)
    requires
        from <= lines.len(),
    ensures
        match out {
            Some(headers) => are_headers(views(lines@).skip(from as int)) && headers@
                == headers_of(views(lines@).skip(from as int)),
            None => !are_headers(views(lines@).skip(from as int)),
        },
{
    let ghost rows = views(lines@).skip(from as int);
    let ghost pairs = Seq::new(rows.len(), |i: int| header(rows[i]));
    let mut headers = Fields::new();
    let mut i: usize = from;
    proof {
        assert(pairs.take(0) =~= Seq::<Entry>::empty());
    }
    while i < lines.len()
        invariant
            from <= i <= lines.len(),
            rows == views(lines@).skip(from as int),
            pairs == Seq::new(rows.len(), |i: int| header(rows[i])),
            forall|j: int| 0 <= j < i - from ==> is_header(#[trigger] rows[j]),
            headers@ == entered(pairs.take(i - from)),
        decreases lines.len() - i,
    {
        assert(rows[i - from] == lines@[i as int]@);
        match split_header(lines[i].as_slice()) {
            None => {
                assert(!is_header(rows[i - from]));
                return None;
            },
            Some(pair) => {
                proof {
                    assert(pairs.take(i - from + 1).drop_last() =~= pairs.take(i - from));
                    assert(pairs.take(i - from + 1).last() == header(rows[i - from]));
                }
                headers.insert(pair.0, pair.1);
            },
        }
        i += 1;
    }
    proof {
        assert(pairs.take(lines.len() - from) =~= pairs);
    }
    Some(headers)
}

/// Takes the body that the headers announce from `rest`, the bytes after the head.
pub fn read_body(headers: &Fields, rest: &[u8]) -> (out: Result<Option<Vec<u8>>, ParseError>)
    ensures
        match out {
            Ok(body) => body_of(headers@, rest@) == Ok::<Option<Seq<u8>>, ParseError>(
                optional(body),
            ),
            Err(e) => body_of(headers@, rest@) == Err::<Option<Seq<u8>>, ParseError>(e),
        },
{
    match headers.get("Content-Length".as_bytes()) {
        None => Ok(None),
        Some(value) => {
            if !is_number(value.as_slice()) {
                return Err(ParseError::MalformedHeader);
            }
            match parse_number(value.as_slice()) {
                None => {
                    assert(rest.len() <= usize::MAX);
                    Err(ParseError::TruncatedBody)
                },
                Some(n) => {
                    if n > rest.len() {
                        Err(ParseError::TruncatedBody)
                    } else {
                        let body = to_vec(&rest[0..n]);
                        proof {
                            assert(body@ =~= rest@.take(n as int));
                        }
                        Ok(Some(body))
                    }
                },
            }
        },
    }
}

impl Request {
    /// Reads a request from `input`, all the bytes that the client sent.
    /// Bytes after the body are ignored.
    pub fn new(input: &[u8]) -> (out: Result<Request, ParseError>)
        ensures
            match out {
                Ok(request) => parse(input@) == Ok::<RequestView, ParseError>(request@),
                Err(e) => parse(input@) == Err::<RequestView, ParseError>(e),
            },
    {
        Request::read(input).0
    }

    /// Reads a request from `input`, the bytes that the client has sent so
    /// far, and tells whether an empty line has closed the head.
    pub fn read(input: &[u8]) -> (out: (Result<Request, ParseError>, bool))
        ensures
            match out.0 {
                Ok(request) => parse(input@) == Ok::<RequestView, ParseError>(request@),
                Err(e) => parse(input@) == Err::<RequestView, ParseError>(e),
            },
            out.1 == head_closed(input@),
    {
        let (lines, consumed, closed) = read_head(input);
        let empty: Vec<u8> = Vec::new();
        let line: &[u8] = if lines.len() > 0 {
            lines[0].as_slice()
        } else {
            empty.as_slice()
        };
        proof {
            if lines.len() > 0 {
                assert(line@ == views(lines@)[0]);
            } else {
                assert(line@ =~= Seq::<u8>::empty());
                assert(words(line@).len() == 0);
            }
        }
        let tokens = split_whitespace(line);
        if tokens.len() != 3 {
            return (Err(ParseError::MalformedRequestLine), closed);
        }
        proof {
            assert(tokens@[0]@ == views(tokens@)[0]);
            assert(tokens@[1]@ == views(tokens@)[1]);
            assert(tokens@[2]@ == views(tokens@)[2]);
        }
        let http_method = match parse_method(tokens[0].as_slice()) {
            Some(method) => method,
            None => {
                return (Err(ParseError::UnsupportedMethod), closed);
            },
        };
        let raw = tokens[1].as_slice();
        let at = find(raw, 0, QUESTION);
        proof {
            assert(raw@.skip(0) =~= raw@);
        }
        let query_params = if at < raw.len() {
            let query = &raw[at + 1..raw.len()];
            proof {
                assert(query@ =~= query_of(raw@)->0);
            }
            match parse_query(query) {
                Some(params) => params,
                None => {
                    return (Err(ParseError::MalformedQueryParam), closed);
                },
            }
        } else {
            Fields::new()
        };
        let target = to_vec(&raw[0..at]);
        proof {
            assert(target@ =~= path_of(raw@));
        }
        let headers = match parse_headers(&lines, 1) {
            Some(headers) => headers,
            None => {
                return (Err(ParseError::MalformedHeader), closed);
            },
        };
        let rest = &input[consumed..input.len()];
        proof {
            assert(rest@ =~= input@.skip(head_length(input@)));
        }
        let body = match read_body(&headers, rest) {
            Ok(body) => body,
            Err(e) => {
                return (Err(e), closed);
            },
        };
        let http_version = to_vec(tokens[2].as_slice());
        let request = Request {
            http_method,
            target,
            http_version,
            headers,
            body,
            path_variables: Fields::new(),
            query_params,
        };
        (Ok(request), closed)
    }
}

/// A request has a body exactly if it announces one, and then the body is
/// as long as announced: `Content-Length: 0` gives an empty body, no
/// `Content-Length` gives no body.
pub proof fn lemma_body_present_iff_announced(input: Seq<u8>)
    requires
        parse(input) is Ok,
    ensures
        ({
            let request = parse(input)->Ok_0;
            let announced = request.headers.contains_key("Content-Length".spec_bytes());
            &&& request.body is Some <==> announced
            &&& announced ==> number(request.headers["Content-Length".spec_bytes()]) == Some(
                request.body->0.len(),
            )
        }),
{
    let headers = headers_of(head(input).skip(1));
    let rest = input.skip(head_length(input));
    if headers.contains_key("Content-Length".spec_bytes()) {
        let n = number(headers["Content-Length".spec_bytes()])->0;
        assert(rest.take(n as int).len() == n);
    }
}

/// The first line feed of `s` is the first line feed of `s` with anything after it.
pub proof fn lemma_first_line_kept(s: Seq<u8>, more: Seq<u8>)
    requires
        position(s, LF) < s.len(),
    ensures
        first_line(s + more) == first_line(s),
        first_line_length(s + more) == first_line_length(s),
        (s + more).skip(first_line_length(s)) == s.skip(first_line_length(s)) + more,
        0 < first_line_length(s) <= s.len(),
{
    lemma_position_exists(s, LF);
    let at = position(s, LF);
    let longer = s + more;
    assert(is_position(longer, LF, at)) by {
        assert forall|j: int| 0 <= j < at implies longer[j] != LF by {
            assert(longer[j] == s[j]);
        }
        assert(longer[at] == s[at]);
    }
    lemma_position(longer, LF, at);
    if 0 < at {
        assert(longer[at - 1] == s[at - 1]);
    }
    assert(longer.take(at) =~= s.take(at));
    if 0 < at {
        assert(longer.take(at - 1) =~= s.take(at - 1));
    }
    assert(longer.skip(at + 1) =~= s.skip(at + 1) + more);
}

/// Once an empty line has closed the head, bytes that arrive later change
/// nothing of it.
pub proof fn lemma_closed_head_kept(s: Seq<u8>, more: Seq<u8>)
    requires
        head_closed(s),
    ensures
        head_closed(s + more),
        head(s + more) == head(s),
        head_length(s + more) == head_length(s),
        0 <= head_length(s) <= s.len(),
    decreases s.len(),
{
    lemma_position_exists(s, LF);
    let n = first_line_length(s);
    if position(s, LF) < s.len() {
        lemma_first_line_kept(s, more);
        if first_line(s).len() != 0 {
            lemma_closed_head_kept(s.skip(n), more);
        }
    } else {
        // Without a line feed the only line is not empty, and nothing follows
        // it that could close the head.
        assert(first_line(s).len() == s.len());
        assert(!head_closed(s.skip(n)));
    }
}

/// A request that is read from a closed head and a whole body is final:
/// bytes that arrive later change neither the request nor the fault found.
pub proof fn lemma_complete_request_kept(input: Seq<u8>, more: Seq<u8>)
    requires
        head_closed(input),
        parse(input) != Err::<RequestView, ParseError>(ParseError::TruncatedBody),
    ensures
        parse(input + more) == parse(input),
{
    lemma_closed_head_kept(input, more);
    let rest = input.skip(head_length(input));
    let longer = (input + more).skip(head_length(input));
    assert(longer =~= rest + more);
    let headers = headers_of(head(input).skip(1));
    if headers.contains_key("Content-Length".spec_bytes()) {
        match number(headers["Content-Length".spec_bytes()]) {
            Some(n) => {
                if n <= rest.len() {
                    assert(longer.take(n as int) =~= rest.take(n as int));
                }
            },
            None => {},
        }
    }
}

} // verus!
