use vstd::prelude::*;

verus! {

/// Everything that can go wrong between reading the input and printing a URL.
///
/// Values that come from the operating system or from the network (paths,
/// I/O failures, HTTP statuses) are carried as the text that describes them.
#[derive(Debug)]
pub enum SpoutError {
    /// An argument is not valid UTF-8: what it was, and its debug rendering.
    InvalidUtf8(&'static str, String),
    NoConfigDir,
    ConfigExists(String),
    ConfigNotFound(String),
    InsecureConfig(String),
    ParseError(String),
    RngError(String),
    DangerousFilename(String),
    InvalidUrl(String),
    UnsupportedScheme(String),
    NoHost,
    NoPort,
    DnsResolution(String),
    DnsTimeout,
    NoAddresses,
    PrivateIp,
    InvalidJson(String),
    KeyNotFound(String),
    NotAString(String),
    ResponseTooLarge,
    ResponseTooLargeLimit(u64),
    ResponseInvalidUrl(String),
    ResponseUnexpectedScheme(String),
    FieldsInBinaryFormat,
    ClipboardPathNotAllowed,
    ClipboardBinaryNotAllowed(String),
    ClipboardSpawn(String, String),
    InputTooLarge(u64),
    SanitizeFailed(&'static str),
    UnsupportedMethod(String),
    UnsupportedFormat(String),
    NoInputData,
    ProfileNotFound(String),
    ResponseReadError(String),
    /// The HTTP status line and the (limited) body of a failed upload.
    UploadFailed(String, String),
    InvalidArgument(String),
    Io(String),
    Reqwest(String),
}

/// The decimal digit `d`.
pub open spec fn digit_char(d: int) -> char {
    (48 + d) as char
}

/// The decimal rendering of `n`, without leading zeros.
pub open spec fn decimal(n: nat) -> Seq<char>
    decreases n,
{
    if n < 10 {
        seq![digit_char(n as int)]
    } else {
        decimal(n / 10) + seq![digit_char((n % 10) as int)]
    }
}

/// The text that describes an error.
pub open spec fn error_message(e: SpoutError) -> Seq<char> {
    match e {
        SpoutError::InvalidUtf8(what, s) => "invalid utf-8 in "@ + what@ + ": "@ + s@,
        SpoutError::NoConfigDir => "failed to resolve config dir"@,
        SpoutError::ConfigExists(p) => "config exists at "@ + p@ + " -- use -G to overwrite"@,
        SpoutError::ConfigNotFound(p) => "config not found at "@ + p@ + " -- run: spout -g"@,
        SpoutError::InsecureConfig(p) => "insecure config permissions -- run: chmod 600 "@ + p@,
        SpoutError::ParseError(s) => "parse error: "@ + s@,
        SpoutError::RngError(s) => "rng error: "@ + s@,
        SpoutError::DangerousFilename(s) => "dangerous characters in filename: "@ + s@,
        SpoutError::InvalidUrl(s) => "invalid url: "@ + s@,
        SpoutError::UnsupportedScheme(s) => "unsupported scheme: "@ + s@,
        SpoutError::NoHost => "no host in url"@,
        SpoutError::NoPort => "no port in url"@,
        SpoutError::DnsResolution(s) => "dns resolution failed: "@ + s@,
        SpoutError::DnsTimeout => "dns resolution timed out"@,
        SpoutError::NoAddresses => "no addresses resolved for host"@,
        SpoutError::PrivateIp => "url resolves to a private ip address"@,
        SpoutError::InvalidJson(s) => "response is not valid json: "@ + s@,
        SpoutError::KeyNotFound(s) => "key '"@ + s@ + "' not found in response"@,
        SpoutError::NotAString(s) => "response path '"@ + s@ + "' is not a string"@,
        SpoutError::ResponseTooLarge => "response body is too large to be a valid url"@,
        SpoutError::ResponseTooLargeLimit(n) => "response exceeds "@ + decimal(n as nat)
            + " MB limit"@,
        SpoutError::ResponseInvalidUrl(s) => "response value is not a valid url: "@ + s@,
        SpoutError::ResponseUnexpectedScheme(s) => "unexpected scheme in response url: "@ + s@,
        SpoutError::FieldsInBinaryFormat => "fields are not supported for binary format uploads"@,
        SpoutError::ClipboardPathNotAllowed => "clipboard binary must be a name, not a path"@,
        SpoutError::ClipboardBinaryNotAllowed(s) => "clipboard binary '"@ + s@ + "' is not allowed"@,
        SpoutError::ClipboardSpawn(b, s) => "failed to spawn clipboard binary '"@ + b@ + "': "@
            + s@,
        SpoutError::InputTooLarge(n) => "input exceeds "@ + decimal(n as nat) + " MB limit"@,
        SpoutError::SanitizeFailed(f) => "failed to strip metadata from "@ + f@,
        SpoutError::UnsupportedMethod(s) => "unsupported http method: "@ + s@,
        SpoutError::UnsupportedFormat(s) => "unsupported upload format: "@ + s@,
        SpoutError::NoInputData => "no input data -- usage: <cmd> | spout [profile]"@,
        SpoutError::ProfileNotFound(s) => "no profile named '"@ + s@ + "'"@,
        SpoutError::ResponseReadError(s) => "failed to read response: "@ + s@,
        SpoutError::UploadFailed(st, body) => "upload failed ("@ + st@ + ") -- "@ + body@,
        SpoutError::InvalidArgument(s) => s@,
        SpoutError::Io(s) => s@,
        SpoutError::Reqwest(s) => s@,
    }
}

fn digit_str(d: u64) -> (r: &'static str)
    requires
        d < 10,
    ensures
        r@ == seq![digit_char(d as int)],
{
    proof {
        reveal_strlit("0");
        reveal_strlit("1");
        reveal_strlit("2");
        reveal_strlit("3");
        reveal_strlit("4");
        reveal_strlit("5");
        reveal_strlit("6");
        reveal_strlit("7");
        reveal_strlit("8");
        reveal_strlit("9");
    }
    let r = if d == 0 {
        "0"
    } else if d == 1 {
        "1"
    } else if d == 2 {
        "2"
    } else if d == 3 {
        "3"
    } else if d == 4 {
        "4"
    } else if d == 5 {
        "5"
    } else if d == 6 {
        "6"
    } else if d == 7 {
        "7"
    } else if d == 8 {
        "8"
    } else {
        "9"
    };
    assert(r@ =~= seq![digit_char(d as int)]);
    r
}

/// The decimal rendering of `n`.
pub fn decimal_string(n: u64) -> (r: String)
    ensures
        r@ == decimal(n as nat),
    decreases n,
{
    if n < 10 {
        digit_str(n).to_owned()
    } else {
        let mut s = decimal_string(n / 10);
        s.append(digit_str(n % 10));
        s
    }
}

/// `a` followed by `b`.
fn cat(a: &str, b: &str) -> (r: String)
    ensures
        r@ == a@ + b@,
{
    let mut s = a.to_owned();
    s.append(b);
    s
}

/// `a`, `b` and `c` in a row.
fn cat3(a: &str, b: &str, c: &str) -> (r: String)
    ensures
        r@ == a@ + b@ + c@,
{
    let mut s = a.to_owned();
    s.append(b);
    s.append(c);
    s
}

/// `a`, `b`, `c` and `d` in a row.
fn cat4(a: &str, b: &str, c: &str, d: &str) -> (r: String)
    ensures
        r@ == a@ + b@ + c@ + d@,
{
    let mut s = a.to_owned();
    s.append(b);
    s.append(c);
    s.append(d);
    s
}

impl SpoutError {
    /// The text that describes this error, as it is shown to the user.
    pub fn message(&self) -> (r: String)
        ensures
            r@ == error_message(*self),
    {
        match self {
            SpoutError::InvalidUtf8(what, s) => cat4("invalid utf-8 in ", what, ": ", s.as_str()),
            SpoutError::NoConfigDir => "failed to resolve config dir".to_owned(),
            SpoutError::ConfigExists(p) => cat3(
                "config exists at ",
                p.as_str(),
                " -- use -G to overwrite",
            ),
            SpoutError::ConfigNotFound(p) => cat3(
                "config not found at ",
                p.as_str(),
                " -- run: spout -g",
            ),
            SpoutError::InsecureConfig(p) => cat(
                "insecure config permissions -- run: chmod 600 ",
                p.as_str(),
            ),
            SpoutError::ParseError(s) => cat("parse error: ", s.as_str()),
            SpoutError::RngError(s) => cat("rng error: ", s.as_str()),
            SpoutError::DangerousFilename(s) => cat(
                "dangerous characters in filename: ",
                s.as_str(),
            ),
            SpoutError::InvalidUrl(s) => cat("invalid url: ", s.as_str()),
            SpoutError::UnsupportedScheme(s) => cat("unsupported scheme: ", s.as_str()),
            SpoutError::NoHost => "no host in url".to_owned(),
            SpoutError::NoPort => "no port in url".to_owned(),
            SpoutError::DnsResolution(s) => cat("dns resolution failed: ", s.as_str()),
            SpoutError::DnsTimeout => "dns resolution timed out".to_owned(),
            SpoutError::NoAddresses => "no addresses resolved for host".to_owned(),
            SpoutError::PrivateIp => "url resolves to a private ip address".to_owned(),
            SpoutError::InvalidJson(s) => cat("response is not valid json: ", s.as_str()),
            SpoutError::KeyNotFound(s) => cat3("key '", s.as_str(), "' not found in response"),
            SpoutError::NotAString(s) => cat3("response path '", s.as_str(), "' is not a string"),
            SpoutError::ResponseTooLarge => "response body is too large to be a valid url".to_owned(),
            SpoutError::ResponseTooLargeLimit(n) => {
                let d = decimal_string(*n);
                cat3("response exceeds ", d.as_str(), " MB limit")
            },
            SpoutError::ResponseInvalidUrl(s) => cat(
                "response value is not a valid url: ",
                s.as_str(),
            ),
            SpoutError::ResponseUnexpectedScheme(s) => cat(
                "unexpected scheme in response url: ",
                s.as_str(),
            ),
            SpoutError::FieldsInBinaryFormat => "fields are not supported for binary format uploads".to_owned(),
            SpoutError::ClipboardPathNotAllowed => "clipboard binary must be a name, not a path".to_owned(),
            SpoutError::ClipboardBinaryNotAllowed(s) => cat3(
                "clipboard binary '",
                s.as_str(),
                "' is not allowed",
            ),
            SpoutError::ClipboardSpawn(b, s) => cat4(
                "failed to spawn clipboard binary '",
                b.as_str(),
                "': ",
                s.as_str(),
            ),
            SpoutError::InputTooLarge(n) => {
                let d = decimal_string(*n);
                cat3("input exceeds ", d.as_str(), " MB limit")
            },
            SpoutError::SanitizeFailed(f) => cat("failed to strip metadata from ", f),
            SpoutError::UnsupportedMethod(s) => cat("unsupported http method: ", s.as_str()),
            SpoutError::UnsupportedFormat(s) => cat("unsupported upload format: ", s.as_str()),
            SpoutError::NoInputData => "no input data -- usage: <cmd> | spout [profile]".to_owned(),
            SpoutError::ProfileNotFound(s) => cat3("no profile named '", s.as_str(), "'"),
            SpoutError::ResponseReadError(s) => cat("failed to read response: ", s.as_str()),
            SpoutError::UploadFailed(st, body) => cat4(
                "upload failed (",
                st.as_str(),
                ") -- ",
                body.as_str(),
            ),
            SpoutError::InvalidArgument(s) => s.clone(),
            SpoutError::Io(s) => s.clone(),
            SpoutError::Reqwest(s) => s.clone(),
        }
    }
}

} // verus!
