//! Where the bytes of a point cloud come from: which transport answers for
//! a URL, and how a byte range is asked for.

use vstd::prelude::*;
use vstd::string::{StrSliceExecFns, StringExecFns};
use url::Url;
use crate::text::{decimal, decimal_string};

verus! {

/// `std::io::Error`, declared so that errors can carry it. Nothing is said
/// of what it holds.
#[verifier::external_type_specification]
#[verifier::external_body]
pub struct ExIoError(std::io::Error);

/// `serde_json::Error`, declared so that errors can carry it. Nothing is
/// said of what it holds.
#[verifier::external_type_specification]
#[verifier::external_body]
pub struct ExJsonError(serde_json::Error);

/// `url::ParseError`, declared so that errors can carry it. Nothing is said
/// of what it holds.
#[verifier::external_type_specification]
#[verifier::external_body]
pub struct ExUrlParseError(url::ParseError);

/// Why a resource could not be had.
#[derive(Debug)]
pub enum ResourceError {
    /// The transport failed.
    Network(String),
    /// The bytes are not the JSON document that was asked for.
    Json(serde_json::Error),
    /// The server answered with a status outside 200 to 299.
    Status(u16),
    /// The file could not be read.
    File(std::io::Error),
    /// The URL could not be parsed.
    Url(url::ParseError),
    /// Another failure, such as a byte range that passes the end of the
    /// 64-bit offsets.
    Other(String),
    /// No transport answers for the URL's scheme.
    Unsupported(String),
}

/// Whether the three characters of `url` from `at` on are `://`.
pub open spec fn separator_at(url: Seq<char>, at: int) -> bool {
    &&& 0 <= at
    &&& at + 3 <= url.len()
    &&& url[at] == ':'
    &&& url[at + 1] == '/'
    &&& url[at + 2] == '/'
}

/// Whether `url` holds `://` somewhere.
pub open spec fn has_separator(url: Seq<char>) -> bool {
    exists|at: int| separator_at(url, at)
}

/// Whether `url` holds `://` somewhere.
pub fn contains_separator(url: &str) -> (found: bool)
    ensures
        found == has_separator(url@),
{
    let mut found = false;
    let mut before: char = ' ';
    let mut last: char = ' ';
    for c in it: url.chars()
        invariant
            it.seq() == url@,
            it.index() >= 1 ==> last == url@[it.index() - 1],
            it.index() >= 2 ==> before == url@[it.index() - 2],
            it.index() < 1 ==> last == ' ',
            it.index() < 2 ==> before == ' ',
            found == (exists|at: int| separator_at(url@, at) && at + 3 <= it.index()),
    {
        if before == ':' && last == '/' && c == '/' {
            assert(separator_at(url@, it.index() - 2));
            found = true;
        }
        before = last;
        last = c;
    }
    found
}

/// A run of bytes in a file.
#[derive(Clone, Copy, Debug, PartialEq, Eq, Structural)]
pub struct ByteRange {
    /// Offset of the first byte.
    pub offset: u64,
    /// Number of bytes.
    pub length: u64,
}

/// The transport that reads local files.
#[derive(Clone, Copy, Debug, PartialEq, Eq, Structural)]
pub struct FileClient;

/// The transport that reads over HTTP and HTTPS.
#[derive(Clone, Copy, Debug, PartialEq, Eq, Structural)]
pub struct EhttpClient;

/// The transports of a reader, one of which answers for each URL.
#[derive(Clone, Copy, Debug, PartialEq, Eq, Structural)]
pub struct ResourceLoader {
    pub file: FileClient,
    pub http: EhttpClient,
}

/// The transport that answers for one URL.
#[derive(Clone, Copy, Debug)]
pub enum ErasedResourceClient<'a> {
    File(&'a FileClient),
    Http(&'a EhttpClient),
}

/// The scheme of a URL as the `url` crate parses it: lower-cased and without
/// the colon; `None` for a string that it does not accept as an absolute
/// URL.
pub uninterp spec fn url_scheme(url: Seq<char>) -> Option<Seq<char>>;

/// `Url::parse` and then `Url::scheme`: the scheme of the URL, or the
/// error with which the string was refused.
#[verifier::external_body]
fn parse_scheme(url: &str) -> (r: Result<String, url::ParseError>)
    ensures
        match r {
            Ok(scheme) => url_scheme(url@) == Some(scheme@),
            Err(_) => url_scheme(url@) is None,
        },
{
    match Url::parse(url) {
        Ok(parsed) => Ok(parsed.scheme().to_string()),
        Err(error) => Err(error),
    }
}

/// Which transport answers for a scheme.
#[derive(Clone, Copy, Debug, PartialEq, Eq, Structural)]
pub enum Transport {
    File,
    Http,
    /// None: the scheme is unknown.
    Unknown,
}

/// The transport that answers for a scheme: HTTP for `http` and `https`,
/// files for `file`, none for any other.
pub open spec fn transport_of(scheme: Seq<char>) -> Transport {
    if scheme == "http"@ || scheme == "https"@ {
        Transport::Http
    } else if scheme == "file"@ {
        Transport::File
    } else {
        Transport::Unknown
    }
}

/// The transport that answers for a URL: files for a string without `://`,
/// which is a local path; for any other, the one of its scheme, and `None`
/// where it does not parse as a URL.
pub open spec fn url_transport(url: Seq<char>) -> Option<Transport> {
    if !has_separator(url) {
        Some(Transport::File)
    } else {
        match url_scheme(url) {
            Some(scheme) => Some(transport_of(scheme)),
            None => None,
        }
    }
}

/// The message of the error for a URL whose scheme no transport answers
/// for.
pub open spec fn unknown_scheme_message(url: Seq<char>) -> Seq<char> {
    "Unknown scheme "@ + url
}

/// The value of the `Range` header that asks for `length` bytes from
/// `offset` on: `bytes=`, the offset, a hyphen, and the offset of the last
/// byte.
pub open spec fn range_header(offset: u64, length: usize) -> Seq<char> {
    "bytes="@ + decimal(offset as nat) + "-"@ + decimal((offset + length - 1) as nat)
}

/// Refuses a range of `length` bytes from `offset` on that passes the end of
/// the 64-bit offsets, and passes any other.
pub fn check_range(offset: u64, length: usize) -> (r: Result<(), ResourceError>)
    ensures
        match r {
            Ok(()) => offset + length <= u64::MAX,
            Err(error) => {
                &&& offset + length > u64::MAX
                &&& error matches ResourceError::Other(message)
                &&& message@ == "Range overflow"@
            },
        },
{
    match offset.checked_add(length as u64) {
        Some(_) => Ok(()),
        None => Err(ResourceError::Other(String::from_str("Range overflow"))),
    }
}

/// The value of the `Range` header that asks for `length` bytes from
/// `offset` on. A range that passes the end of the 64-bit offsets is
/// refused.
pub fn range_header_value(offset: u64, length: usize) -> (r: Result<String, ResourceError>)
    requires
        length >= 1,
    ensures
        match r {
            Ok(value) => offset + length <= u64::MAX && value@ == range_header(offset, length),
            Err(error) => {
                &&& offset + length > u64::MAX
                &&& error matches ResourceError::Other(message)
                &&& message@ == "Range overflow"@
            },
        },
{
    check_range(offset, length)?;
    let end: u64 = offset + length as u64 - 1;
    let mut value = String::from_str("bytes=");
    value.append(decimal_string(offset).as_str());
    value.append("-");
    value.append(decimal_string(end).as_str());
    Ok(value)
}

/// Whether `url` begins with `file://`.
pub open spec fn has_file_scheme(url: Seq<char>) -> bool {
    url.len() >= 7 && url.subrange(0, 7) == "file://"@
}

/// The path of the local file that `url` names: the URL without `file://`
/// at its start, and the whole string where it does not start so.
pub open spec fn local_path_of(url: Seq<char>) -> Seq<char> {
    if has_file_scheme(url) {
        url.subrange(7, url.len() as int)
    } else {
        url
    }
}

/// Whether `url` begins with `file://`.
pub fn is_file_url(url: &str) -> (r: bool)
    ensures
        r == has_file_scheme(url@),
{
    proof {
        reveal_strlit("file://");
    }
    let len: usize = url.unicode_len();
    if len >= 7 && url.get_char(0) == 'f' && url.get_char(1) == 'i' && url.get_char(2) == 'l'
        && url.get_char(3) == 'e' && url.get_char(4) == ':' && url.get_char(5) == '/'
        && url.get_char(6) == '/' {
        assert(url@.subrange(0, 7) =~= "file://"@);
        true
    } else {
        assert(!has_file_scheme(url@)) by {
            if url@.len() >= 7 {
                assert(forall|at: int| 0 <= at < 7 ==> url@.subrange(0, 7)[at] == url@[at]);
            }
        }
        false
    }
}

/// The path of the local file that `url` names.
pub fn local_path<'a>(url: &'a str) -> (path: &'a str)
    ensures
        path@ == local_path_of(url@),
{
    if is_file_url(url) {
        url.substring_char(7, url.unicode_len())
    } else {
        url
    }
}

/// The URL of the file `name` of the cloud under `url`: the two with a
/// slash between them.
pub fn file_url(url: &str, name: &str) -> (r: String)
    ensures
        r@ == url@ + "/"@ + name@,
{
    let mut r = String::from_str(url);
    r.append("/");
    r.append(name);
    r
}

/// Whether an HTTP status stands for success: 200 to 299.
pub open spec fn is_success(status: u16) -> bool {
    200 <= status < 300
}

/// Passes a status of success and turns any other into the error that
/// carries it.
pub fn check_status(status: u16) -> (r: Result<(), ResourceError>)
    ensures
        match r {
            Ok(()) => is_success(status),
            Err(error) => {
                &&& !is_success(status)
                &&& error matches ResourceError::Status(code)
                &&& code == status
            },
        },
{
    if 200 <= status && status < 300 {
        Ok(())
    } else {
        Err(ResourceError::Status(status))
    }
}

/// Passes the answer to a range request if it holds just the `length` bytes
/// that were asked for, and refuses any other answer.
pub fn exact_range(bytes: Vec<u8>, length: usize) -> (r: Result<Vec<u8>, ResourceError>)
    ensures
        match r {
            Ok(same) => bytes@.len() == length && same@ == bytes@,
            Err(error) => {
                &&& bytes@.len() != length
                &&& error matches ResourceError::Network(message)
                &&& message@ == "Range length mismatch"@
            },
        },
{
    if bytes.len() == length {
        Ok(bytes)
    } else {
        Err(ResourceError::Network(String::from_str("Range length mismatch")))
    }
}

impl ResourceLoader {
    /// A loader with both transports.
    pub fn new() -> (loader: ResourceLoader)
        ensures
            loader == (ResourceLoader { file: FileClient, http: EhttpClient }),
    {
        ResourceLoader { file: FileClient, http: EhttpClient }
    }

    /// The transport that answers for a URL of the given scheme; for an
    /// unknown scheme, the error that names the URL.
    pub fn delegate_for_scheme<'a>(&'a self, scheme: &str, url: &str) -> (r: Result<
        ErasedResourceClient<'a>,
        ResourceError,
    >)
        ensures
            match r {
                Ok(ErasedResourceClient::File(client)) => transport_of(scheme@) is File && *client
                    == self.file,
                Ok(ErasedResourceClient::Http(client)) => transport_of(scheme@) is Http && *client
                    == self.http,
                Err(error) => {
                    &&& transport_of(scheme@) is Unknown
                    &&& error matches ResourceError::Unsupported(message)
                    &&& message@ == unknown_scheme_message(url@)
                },
            },
    {
        let scheme = String::from_str(scheme);
        if scheme == String::from_str("http") || scheme == String::from_str("https") {
            Ok(ErasedResourceClient::Http(&self.http))
        } else if scheme == String::from_str("file") {
            Ok(ErasedResourceClient::File(&self.file))
        } else {
            let mut message = String::from_str("Unknown scheme ");
            message.append(url);
            Err(ResourceError::Unsupported(message))
        }
    }

    /// The transport that answers for a URL. A string without `://` is the
    /// path of a local file. Any other has to parse as a URL, and its scheme
    /// decides.
    pub fn get_delegate<'a>(&'a self, url: &str) -> (r: Result<
        ErasedResourceClient<'a>,
        ResourceError,
    >)
        ensures
            match r {
                Ok(ErasedResourceClient::File(client)) => {
                    &&& url_transport(url@) == Some(Transport::File)
                    &&& *client == self.file
                },
                Ok(ErasedResourceClient::Http(client)) => {
                    &&& url_transport(url@) == Some(Transport::Http)
                    &&& *client == self.http
                },
                Err(ResourceError::Url(_)) => url_transport(url@) is None,
                Err(ResourceError::Unsupported(message)) => {
                    &&& url_transport(url@) == Some(Transport::Unknown)
                    &&& message@ == unknown_scheme_message(url@)
                },
                Err(_) => false,
            },
    {
        if contains_separator(url) {
            match parse_scheme(url) {
                Ok(scheme) => self.delegate_for_scheme(scheme.as_str(), url),
                Err(error) => Err(ResourceError::Url(error)),
            }
        } else {
            Ok(ErasedResourceClient::File(&self.file))
        }
    }
}

} // verus!
