//! Status line and header serialisation for HTTP responses.
use vstd::prelude::*;
use vstd::utf8::{encode_utf8, is_ascii_chars, is_ascii_chars_encode_utf8};

verus! {

/// Status codes a response can carry.
#[derive(Clone, Copy, Debug, PartialEq, Eq, Structural)]
pub enum Code {
    OK,
    NotFound,
}

/// Request methods.
#[derive(Clone, Copy, Debug, PartialEq, Eq, Structural)]
pub enum Method {
    Get,
    Post,
}

/// The reason phrase of a status code.
pub open spec fn reason_of(code: Code) -> Seq<char> {
    match code {
        Code::OK => "OK"@,
        Code::NotFound => "Not Found"@,
    }
}

/// The numeric value of a status code.
pub open spec fn value_of(code: Code) -> int {
    match code {
        Code::OK => 200,
        Code::NotFound => 404,
    }
}

/// The text of a request method.
pub open spec fn method_text(method: Method) -> Seq<char> {
    match method {
        Method::Get => "Get"@,
        Method::Post => "Post"@,
    }
}

/// The character of a decimal digit.
pub open spec fn digit_char(d: nat) -> char
    recommends
        d < 10,
{
    ((d + 48) as u8) as char
}

/// The decimal representation of a natural number, without leading zeros.
pub open spec fn decimal(n: nat) -> Seq<char>
    decreases n,
{
    if n < 10 {
        seq![digit_char(n)]
    } else {
        decimal(n / 10).push(digit_char(n % 10))
    }
}

impl Code {
    /// The reason phrase that follows the code in a status line.
    pub fn reason_phrase(&self) -> (r: &'static str)
        ensures
            r@ == reason_of(*self),
    {
        match *self {
            Code::OK => "OK",
            Code::NotFound => "Not Found",
        }
    }

    /// The numeric value of the code.
    pub fn value(&self) -> (r: i32)
        ensures
            r == value_of(*self),
    {
        match *self {
            Code::OK => 200,
            Code::NotFound => 404,
        }
    }
}

impl Method {
    /// The name of the method.
    pub fn value(&self) -> (r: &'static str)
        ensures
            r@ == method_text(*self),
    {
        match self {
            Method::Get => "Get",
            Method::Post => "Post",
        }
    }
}

/// UTF-8 encoding distributes over concatenation.
pub proof fn lemma_encode_concat(a: Seq<char>, b: Seq<char>)
    ensures
        encode_utf8(a + b) == encode_utf8(a) + encode_utf8(b),
    decreases a.len(),
{
    if a.len() == 0 {
        assert(a + b =~= b);
    } else {
        lemma_encode_concat(a.drop_first(), b);
        assert((a + b).drop_first() =~= a.drop_first() + b);
    }
}

/// The ASCII bytes of the decimal representation of `n`.
pub fn decimal_digits(n: u32) -> (r: Vec<u8>)
    ensures
        r@ == encode_utf8(decimal(n as nat)),
    decreases n,
{
    let d: u8 = (n % 10) as u8;
    let c: u8 = 48 + d;
    proof {
        let ch = digit_char((n % 10) as nat);
        assert(is_ascii_chars(seq![ch]));
        is_ascii_chars_encode_utf8(seq![ch]);
        assert(encode_utf8(seq![ch]) =~= seq![c]);
    }
    if n < 10 {
        let mut v: Vec<u8> = Vec::new();
        v.push(c);
        assert(v@ =~= seq![c]);
        v
    } else {
        let mut v = decimal_digits(n / 10);
        proof {
            let ch = digit_char((n % 10) as nat);
            lemma_encode_concat(decimal((n / 10) as nat), seq![ch]);
            assert(decimal(n as nat) =~= decimal((n / 10) as nat) + seq![ch]);
        }
        v.push(c);
        assert(v@ =~= encode_utf8(decimal((n / 10) as nat)) + seq![c]);
        v
    }
}


/// Line terminator of the status line and of each header line.
pub const CRLF: &'static str = "\r\n";

/// The reason a stream refused bytes.
#[derive(Clone, Copy, Debug, PartialEq, Eq, Structural)]
pub enum StreamError {
    Closed,
}

/// A sink of bytes; what it accepts it keeps in call order.
pub trait Stream {
    /// The bytes accepted so far.
    spec fn written(&self) -> Seq<u8>;

    /// The stream takes every write, now and after it.
    spec fn accepts_all(&self) -> bool;

    /// Appends `buffer`.
    fn write(&mut self, buffer: &[u8]) -> (r: Result<(), StreamError>)
        ensures
            r is Ok ==> final(self).written() == old(self).written() + buffer@,
            old(self).accepts_all() ==> r is Ok && final(self).accepts_all(),
    ;

    /// Appends the UTF-8 encoding of `string`.
    fn write_str(&mut self, string: &str) -> (r: Result<(), StreamError>)
        ensures
            r is Ok ==> final(self).written() == old(self).written() + encode_utf8(string@),
            old(self).accepts_all() ==> r is Ok && final(self).accepts_all(),
    {
        self.write(string.as_bytes())
    }

    /// Appends `string` and a line terminator.
    fn writeln(&mut self, string: &str) -> (r: Result<(), StreamError>)
        ensures
            r is Ok ==> final(self).written() == old(self).written() + encode_utf8(string@ + CRLF@),
            old(self).accepts_all() ==> r is Ok && final(self).accepts_all(),
    {
        self.write_str(string)?;
        let r = self.new_line();
        proof {
            lemma_encode_concat(string@, CRLF@);
        }
        r
    }

    /// Appends a line terminator.
    fn new_line(&mut self) -> (r: Result<(), StreamError>)
        ensures
            r is Ok ==> final(self).written() == old(self).written() + encode_utf8(CRLF@),
            old(self).accepts_all() ==> r is Ok && final(self).accepts_all(),
    {
        self.write_str(CRLF)
    }
}

/// A stream that keeps what it is given in memory.
pub struct StringStream {
    pub bytes: Vec<u8>,
}

impl StringStream {
    /// An empty stream.
    pub fn new() -> (r: StringStream)
        ensures
            r.bytes@ == Seq::<u8>::empty(),
    {
        StringStream { bytes: Vec::new() }
    }
}

impl Stream for StringStream {
    open spec fn written(&self) -> Seq<u8> {
        self.bytes@
    }

    open spec fn accepts_all(&self) -> bool {
        true
    }

    fn write(&mut self, buffer: &[u8]) -> (r: Result<(), StreamError>)
        ensures
            r is Ok,
    {
        let mut i: usize = 0;
        while i < buffer.len()
            invariant
                i <= buffer@.len(),
                self.bytes@ == old(self).bytes@ + buffer@.subrange(0, i as int),
            decreases buffer@.len() - i,
        {
            self.bytes.push(buffer[i]);
            i = i + 1;
            assert(self.bytes@ =~= old(self).bytes@ + buffer@.subrange(0, i as int));
        }
        assert(buffer@.subrange(0, i as int) =~= buffer@);
        Ok(())
    }
}


/// The status line of a response.
pub open spec fn status_line(version: Seq<char>, code: Code) -> Seq<char> {
    "HTTP/"@ + version + " "@ + decimal(value_of(code) as nat) + " "@ + reason_of(code) + CRLF@
}

/// One `key: value` line for each header, in order.
pub open spec fn header_lines(headers: Seq<(Seq<char>, Seq<char>)>) -> Seq<char>
    decreases headers.len(),
{
    if headers.len() == 0 {
        Seq::empty()
    } else {
        let (key, value) = headers.last();
        header_lines(headers.drop_last()) + key + ": "@ + value + CRLF@
    }
}

/// The whole head of a response: status line, header lines and the empty
/// line that separates the body.
pub open spec fn response_head(
    version: Seq<char>,
    code: Code,
    headers: Seq<(Seq<char>, Seq<char>)>,
) -> Seq<char> {
    status_line(version, code) + header_lines(headers) + CRLF@
}

/// What requests and responses have in common.
pub struct Base {
    /// Header fields, each key at most once.
    pub headers: Vec<(String, String)>,
    pub version: Option<String>,
}

impl Base {
    /// The headers as text pairs.
    pub open spec fn headers_view(&self) -> Seq<(Seq<char>, Seq<char>)> {
        self.headers@.map_values(|h: (String, String)| (h.0@, h.1@))
    }

    /// No key occurs twice.
    pub open spec fn wf(&self) -> bool {
        forall|i: int, j: int|
            0 <= i < j < self.headers@.len() ==> self.headers@[i].0@ != self.headers@[j].0@
    }

    /// Sets header `key` to `value`; returns the value it replaced, if any.
    /// A new key goes last; a present one keeps its place.
    pub fn insert_header(&mut self, key: String, value: String) -> (r: Option<String>)
        requires
            old(self).wf(),
        ensures
            final(self).wf(),
            final(self).version == old(self).version,
            match r {
                Some(prev) => exists|i: int|
                    0 <= i < old(self).headers@.len()
                    && old(self).headers@[i].0@ == key@
                    && prev@ == old(self).headers@[i].1@
                    && final(self).headers_view() == old(self).headers_view().update(i, (key@, value@)),
                None => (forall|i: int|
                    0 <= i < old(self).headers@.len() ==> old(self).headers@[i].0@ != key@)
                    && final(self).headers_view() == old(self).headers_view().push((key@, value@)),
            },
    {
        let mut i: usize = 0;
        while i < self.headers.len()
            invariant
                i <= self.headers@.len(),
                *self == *old(self),
                old(self).wf(),
                forall|j: int| 0 <= j < i ==> self.headers@[j].0@ != key@,
            decreases self.headers@.len() - i,
        {
            if self.headers[i].0 == key {
                let ghost before = self.headers_view();
                let (k, prev) = self.headers.remove(i);
                self.headers.insert(i, (k, value));
                assert(self.headers_view() =~= before.update(i as int, (key@, value@)));
                assert forall|j: int| 0 <= j < self.headers@.len() implies #[trigger] self.headers@[j].0@
                    == old(self).headers@[j].0@ by {
                    assert(self.headers_view()[j] == before.update(i as int, (key@, value@))[j]);
                }
                return Some(prev);
            }
            i = i + 1;
        }
        self.headers.push((key, value));
        assert(self.headers_view() =~= old(self).headers_view().push((key@, value@)));
        None
    }
}

impl Default for Base {
    fn default() -> (r: Base)
        ensures
            r.headers@.len() == 0,
            r.version is None,
    {
        Base { headers: Vec::new(), version: None }
    }
}

/// An incoming request.
pub struct Request {
    pub base: Base,
    pub method: Option<Method>,
    pub path: String,
}

/// An outgoing response.
pub struct Response {
    pub base: Base,
    pub code: Option<Code>,
}

impl Default for Response {
    fn default() -> (r: Response)
        ensures
            r.base.headers@.len() == 0,
            r.base.version is None,
            r.code is None,
    {
        Response { base: Base::default(), code: None }
    }
}


/// Appending the encoding of `more` to bytes that end in the encoding of
/// `text` gives the encoding of `text + more`.
proof fn lemma_extend(start: Seq<u8>, text: Seq<char>, more: Seq<char>)
    ensures
        start + encode_utf8(text) + encode_utf8(more) == start + encode_utf8(text + more),
{
    lemma_encode_concat(text, more);
    assert(start + encode_utf8(text) + encode_utf8(more) =~= start + (encode_utf8(text)
        + encode_utf8(more)));
}

impl Response {
    /// Writes the status line, one line per header in order, and the empty
    /// line that separates the body.
    pub fn write_header<S: Stream>(self, stream: &mut S) -> (r: Result<(), StreamError>)
        requires
            self.base.version is Some,
            self.code is Some,
        ensures
            r is Ok ==> final(stream).written() == old(stream).written() + encode_utf8(
                response_head(self.base.version->0@, self.code->0, self.base.headers_view()),
            ),
            old(stream).accepts_all() ==> r is Ok,
    {
        let ghost start = stream.written();
        let ghost reliable = stream.accepts_all();
        let ghost headers_view = self.base.headers_view();
        let ghost mut text: Seq<char> = Seq::empty();
        assert(start + encode_utf8(text) =~= start);
        let version = self.base.version.unwrap();
        let code = self.code.unwrap();
        let headers = self.base.headers;

        // Status line
        stream.write_str("HTTP/")?;
        proof {
            lemma_extend(start, text, "HTTP/"@);
            text = text + "HTTP/"@;
        }
        stream.write_str(version.as_str())?;
        proof {
            lemma_extend(start, text, version@);
            text = text + version@;
        }
        stream.write_str(" ")?;
        proof {
            lemma_extend(start, text, " "@);
            text = text + " "@;
        }
        let digits = decimal_digits(code.value() as u32);
        stream.write(digits.as_slice())?;
        proof {
            lemma_extend(start, text, decimal(value_of(code) as nat));
            text = text + decimal(value_of(code) as nat);
        }
        stream.write_str(" ")?;
        proof {
            lemma_extend(start, text, " "@);
            text = text + " "@;
        }
        stream.write_str(code.reason_phrase())?;
        proof {
            lemma_extend(start, text, reason_of(code));
            text = text + reason_of(code);
        }
        stream.new_line()?;
        proof {
            lemma_extend(start, text, CRLF@);
            text = text + CRLF@;
            assert(text =~= status_line(version@, code));
            assert(headers_view.take(0) =~= Seq::<(Seq<char>, Seq<char>)>::empty());
            assert(text =~= status_line(version@, code) + header_lines(headers_view.take(0)));
        }

        // Headers
        let mut i: usize = 0;
        while i < headers.len()
            invariant
                i <= headers@.len(),
                headers_view == headers@.map_values(|h: (String, String)| (h.0@, h.1@)),
                text == status_line(version@, code) + header_lines(headers_view.take(i as int)),
                stream.written() == start + encode_utf8(text),
                reliable == old(stream).accepts_all(),
                reliable ==> stream.accepts_all(),
            decreases headers@.len() - i,
        {
            let key = headers[i].0.as_str();
            let value = headers[i].1.as_str();
            stream.write_str(key)?;
            proof {
                lemma_extend(start, text, key@);
                text = text + key@;
            }
            stream.write_str(": ")?;
            proof {
                lemma_extend(start, text, ": "@);
                text = text + ": "@;
            }
            stream.writeln(value)?;
            proof {
                lemma_extend(start, text, value@ + CRLF@);
                text = text + (value@ + CRLF@);
                let taken = headers_view.take(i + 1);
                assert(taken.drop_last() =~= headers_view.take(i as int));
                assert(taken.last() == (key@, value@));
                assert(text =~= status_line(version@, code) + header_lines(taken));
            }
            i = i + 1;
        }

        // Body separator
        stream.new_line()?;
        proof {
            lemma_extend(start, text, CRLF@);
            text = text + CRLF@;
            assert(headers_view.take(i as int) =~= headers_view);
        }
        Ok(())
    }
}


/// The numbers `0 .. n`, each written in decimal between two spaces.
pub open spec fn counting_text(n: nat) -> Seq<char>
    decreases n,
{
    if n == 0 {
        Seq::empty()
    } else {
        counting_text((n - 1) as nat) + " "@ + decimal((n - 1) as nat) + " "@
    }
}

/// The UTF-8 bytes of `counting_text(n)`.
pub fn counting_body(n: u32) -> (r: Vec<u8>)
    ensures
        r@ == encode_utf8(counting_text(n as nat)),
{
    let mut body = StringStream::new();
    let mut i: u32 = 0;
    assert(encode_utf8(counting_text(0)) =~= Seq::<u8>::empty());
    while i < n
        invariant
            i <= n,
            body.bytes@ == encode_utf8(counting_text(i as nat)),
        decreases n - i,
    {
        let ghost text = counting_text(i as nat);
        let _ = body.write(" ".as_bytes());
        proof {
            lemma_extend(Seq::empty(), text, " "@);
            assert(Seq::<u8>::empty() + encode_utf8(text) =~= encode_utf8(text));
        }
        let digits = decimal_digits(i);
        let _ = body.write(digits.as_slice());
        proof {
            lemma_extend(Seq::empty(), text + " "@, decimal(i as nat));
            assert(Seq::<u8>::empty() + encode_utf8(text + " "@) =~= encode_utf8(text + " "@));
        }
        let _ = body.write(" ".as_bytes());
        proof {
            lemma_extend(Seq::empty(), text + " "@ + decimal(i as nat), " "@);
            assert(Seq::<u8>::empty() + encode_utf8(text + " "@ + decimal(i as nat)) =~= encode_utf8(
                text + " "@ + decimal(i as nat),
            ));
        }
        i = i + 1;
    }
    body.bytes
}

} // verus!
