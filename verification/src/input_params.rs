//! What a run is started with, and the checks each value has to pass before
//! any worker starts.

use vstd::prelude::*;
use vstd::string::{StringExecFns, StringSliceAdditionalSpecFns};
use crate::decimal::{parse_below, unsigned_decimal};

verus! {

/// The number of connections of a run that names none.
pub const DEFAULT_CONNECTIONS: u16 = 4;

/// The number of requests of a run that names none.
pub const DEFAULT_REQUESTS: u64 = 1000;

/// The smallest number of connections a run may use.
pub const MIN_CONNECTIONS: u16 = 1;

/// One more than the largest number of connections a run may use.
pub const CONNECTIONS_LIMIT: u16 = 65_000;

/// Why the values of a run were turned down.
#[derive(Clone, Copy, Debug, PartialEq, Eq, Structural)]
pub enum ValidationError {
    /// The number of connections is no numeral, or lies outside
    /// `MIN_CONNECTIONS .. CONNECTIONS_LIMIT`.
    Connections,
    /// The run would issue no request.
    Requests,
    /// The target is no absolute URI: it does not parse, or it lacks a
    /// scheme or a host.
    TargetUrl,
}

/// Why a report cannot be written to the file that was named.
#[derive(Clone, Copy, Debug, PartialEq, Eq, Structural)]
pub enum ReportWriteError {
    /// The name does not end in the extension `csv`.
    Extension,
    /// There is a file of that name already, and it is not overwritten.
    AlreadyExists,
}

/// What is said of each error of validation.
pub open spec fn validation_message(error: ValidationError) -> Seq<char> {
    match error {
        ValidationError::Connections => "Value must be in the range [1..512]"@,
        ValidationError::Requests => "There must be at least one request"@,
        ValidationError::TargetUrl => "The target must be an absolute URI, with a scheme and a host"@,
    }
}

/// What is said of each error of writing the report.
pub open spec fn write_message(error: ReportWriteError) -> Seq<char> {
    match error {
        ReportWriteError::Extension => "The provided file must have .csv extension!"@,
        ReportWriteError::AlreadyExists => "The provided report file already exists!"@,
    }
}

impl ValidationError {
    /// The error in words.
    pub fn message(&self) -> (text: String)
        ensures
            text@ == validation_message(*self),
    {
        match self {
            ValidationError::Connections => String::from_str("Value must be in the range [1..512]"),
            ValidationError::Requests => String::from_str("There must be at least one request"),
            ValidationError::TargetUrl => String::from_str(
                "The target must be an absolute URI, with a scheme and a host",
            ),
        }
    }
}

impl ReportWriteError {
    /// The error in words.
    pub fn message(&self) -> (text: String)
        ensures
            text@ == write_message(*self),
    {
        match self {
            ReportWriteError::Extension => String::from_str(
                "The provided file must have .csv extension!",
            ),
            ReportWriteError::AlreadyExists => String::from_str(
                "The provided report file already exists!",
            ),
        }
    }
}

/// A number of connections is acceptable when it lies in
/// `MIN_CONNECTIONS .. CONNECTIONS_LIMIT`.
pub open spec fn valid_connections(n: int) -> bool {
    MIN_CONNECTIONS <= n < CONNECTIONS_LIMIT
}

/// The number of connections that a text asks for, if it asks for an
/// acceptable one: the text is an unsigned decimal numeral and its value is
/// a valid number of connections.
pub open spec fn connections_of(text: Seq<u8>) -> Option<u16> {
    match unsigned_decimal(text) {
        Some(n) => if valid_connections(n as int) {
            Some(n as u16)
        } else {
            None
        },
        None => None,
    }
}

/// What `connections_in_range` answers to a text it does not accept.
pub open spec fn connections_message() -> Seq<char> {
    validation_message(ValidationError::Connections)
}

/// Reads the number of connections from its textual form.
///
/// Succeeds exactly on the decimal numerals from 1 up to 64999; every other
/// text is answered with the same message.
pub fn connections_in_range(s: &str) -> (r: Result<u16, String>)
    ensures
        match r {
            Ok(value) => connections_of(s.spec_bytes()) == Some(value),
            Err(msg) => connections_of(s.spec_bytes()) is None && msg@ == connections_message(),
        },
{
    let error_msg = ValidationError::Connections.message();
    match parse_below(s.as_bytes(), 65_000) {
        Some(value) => {
            if value >= 1 {
                Ok(value as u16)
            } else {
                Err(error_msg)
            }
        },
        None => Err(error_msg),
    }
}

/// The scheme and the host of a URI, each as far as the URI has one.
#[derive(Debug)]
pub struct UriParts {
    pub scheme: Option<String>,
    pub host: Option<String>,
}

/// An optional text as plain characters.
pub open spec fn text_of(part: Option<String>) -> Option<Seq<char>> {
    match part {
        Some(text) => Some(text@),
        None => None,
    }
}

impl View for UriParts {
    type V = (Option<Seq<char>>, Option<Seq<char>>);

    open spec fn view(&self) -> (Option<Seq<char>>, Option<Seq<char>>) {
        (text_of(self.scheme), text_of(self.host))
    }
}

/// Optional parts as plain characters.
pub open spec fn parts_of(parts: Option<UriParts>) -> Option<(Option<Seq<char>>, Option<Seq<char>>)> {
    match parts {
        Some(p) => Some(p@),
        None => None,
    }
}

/// What parsing `text` as a `hyper::Uri` gives: nothing where the parser
/// turns the text down, else the scheme and the host of the URI.
pub uninterp spec fn uri_parts(text: Seq<char>) -> Option<(Option<Seq<char>>, Option<Seq<char>>)>;

/// Parses `text` with `<hyper::Uri as FromStr>::from_str` and hands out what
/// `Uri::scheme_str` and `Uri::host` say of the result.
///
/// Not verified. The contract only gives the outcome its name, `uri_parts`:
/// the parser looks at nothing but the text, so the same text always has the
/// same outcome.
#[verifier::external_body]
fn split_uri(text: &str) -> (parts: Option<UriParts>)
    ensures
        parts_of(parts) == uri_parts(text@),
{
    match text.parse::<hyper::Uri>() {
        Ok(uri) => Some(
            UriParts {
                scheme: uri.scheme_str().map(String::from),
                host: uri.host().map(String::from),
            },
        ),
        Err(_) => None,
    }
}

/// The parts are those of an absolute URI: there are a scheme and a host,
/// and neither of them is empty.
pub open spec fn is_absolute(parts: Option<(Option<Seq<char>>, Option<Seq<char>>)>) -> bool {
    match parts {
        Some((Some(scheme), Some(host))) => scheme.len() > 0 && host.len() > 0,
        _ => false,
    }
}

/// Decides from the parts of a URI whether it can be the target of a run.
///
/// `parts` is what parsing the target gave. The target is accepted exactly
/// when it parsed and has a scheme and a host, neither of them empty.
pub fn accept_target(parts: &Option<UriParts>) -> (r: Result<(), ValidationError>)
    ensures
        r is Ok <==> is_absolute(parts_of(*parts)),
        r is Err ==> r == Err::<(), ValidationError>(ValidationError::TargetUrl),
{
    match parts {
        Some(p) => match (&p.scheme, &p.host) {
            (Some(scheme), Some(host)) => {
                if scheme.as_str().is_empty() || host.as_str().is_empty() {
                    Err(ValidationError::TargetUrl)
                } else {
                    Ok(())
                }
            },
            _ => Err(ValidationError::TargetUrl),
        },
        None => Err(ValidationError::TargetUrl),
    }
}

/// Checks that `text` is an absolute URI.
pub fn check_target_url(text: &str) -> (r: Result<(), ValidationError>)
    ensures
        r is Ok <==> is_absolute(uri_parts(text@)),
        r is Err ==> r == Err::<(), ValidationError>(ValidationError::TargetUrl),
{
    let parts = split_uri(text);
    accept_target(&parts)
}

/// The extension of a file name, as `std::path::Path::extension` finds it.
///
/// Not verified, and nothing is claimed of the result: where a file name
/// begins and ends depends on the platform.
#[verifier::external_body]
fn path_extension(path: &str) -> (extension: Option<String>) {
    match std::path::Path::new(path).extension() {
        Some(extension) => extension.to_str().map(String::from),
        None => None,
    }
}

/// The extension is the one that a report file must have.
pub open spec fn is_csv(extension: Option<Seq<char>>) -> bool {
    extension == Some("csv"@)
}

/// Tells whether `extension` is the extension of a report file.
pub fn is_csv_extension(extension: &Option<String>) -> (b: bool)
    ensures
        b == is_csv(text_of(*extension)),
{
    match extension {
        Some(text) => {
            let wanted = String::from_str("csv");
            *text == wanted
        },
        None => false,
    }
}

/// The verdict on a report file whose name has the given extension and
/// which exists or not, as `exists` says: the extension is checked first.
pub open spec fn output_verdict(
    output_file: Seq<char>,
    extension: Option<Seq<char>>,
    exists: bool,
) -> Result<Seq<char>, ReportWriteError> {
    if !is_csv(extension) {
        Err(ReportWriteError::Extension)
    } else if exists {
        Err(ReportWriteError::AlreadyExists)
    } else {
        Ok(output_file)
    }
}

/// A result with its text as plain characters.
pub open spec fn verdict_of(r: Result<String, ReportWriteError>) -> Result<
    Seq<char>,
    ReportWriteError,
> {
    match r {
        Ok(text) => Ok(text@),
        Err(e) => Err(e),
    }
}

/// Decides whether a report may be written to `output_file`.
///
/// `extension` is the extension of the name and `exists` says whether there
/// is such a file already. A name without the extension `csv` is turned
/// down whatever else holds; a file that exists is never overwritten.
pub fn output_file_verdict(output_file: &str, extension: &Option<String>, exists: bool) -> (r:
    Result<String, ReportWriteError>)
    ensures
        verdict_of(r) == output_verdict(output_file@, text_of(*extension), exists),
{
    if !is_csv_extension(extension) {
        Err(ReportWriteError::Extension)
    } else if exists {
        Err(ReportWriteError::AlreadyExists)
    } else {
        Ok(String::from_str(output_file))
    }
}

/// Decides whether a report may be written to `output_file`, of which
/// `exists` says whether there is such a file already.
///
/// The name that is handed back is `output_file` itself. A file that exists
/// is turned down whatever its name.
pub fn check_output_file(output_file: &str, exists: bool) -> (r: Result<String, ReportWriteError>)
    ensures
        r matches Ok(name) ==> name@ == output_file@ && !exists,
        r == Err::<String, ReportWriteError>(ReportWriteError::AlreadyExists) ==> exists,
        exists ==> r is Err,
{
    let extension = path_extension(output_file);
    output_file_verdict(output_file, &extension, exists)
}

/// The values a run is started with.
#[derive(Debug)]
pub struct InputParams {
    pub connections: u16,
    pub requests: u64,
    pub target_url: String,
    pub output_file: Option<String>,
}

/// The verdict on the values of a run: the first of them that is not
/// acceptable, in the order connections, requests, target.
pub open spec fn params_verdict(connections: Seq<u8>, requests: u64, target_url: Seq<char>) -> Option<
    ValidationError,
> {
    if connections_of(connections) is None {
        Some(ValidationError::Connections)
    } else if requests < 1 {
        Some(ValidationError::Requests)
    } else if !is_absolute(uri_parts(target_url)) {
        Some(ValidationError::TargetUrl)
    } else {
        None
    }
}

impl InputParams {
    /// Checks the values of a run and puts them together.
    ///
    /// `connections` is the number of connections as it was typed. The
    /// values are accepted when the number of connections is a numeral from
    /// 1 up to 64999, there is at least one request, and the target is an
    /// absolute URI. The run has no report file yet: `with_output_file`
    /// names one.
    pub fn new(connections: &str, requests: u64, target_url: &str) -> (r: Result<
        InputParams,
        ValidationError,
    >)
        ensures
            match r {
                Ok(params) => {
                    &&& params_verdict(connections.spec_bytes(), requests, target_url@) is None
                    &&& Some(params.connections) == connections_of(connections.spec_bytes())
                    &&& params.requests == requests
                    &&& params.target_url@ == target_url@
                    &&& params.output_file is None
                },
                Err(e) => params_verdict(connections.spec_bytes(), requests, target_url@) == Some(e),
            },
    {
        let connections: u16 = match connections_in_range(connections) {
            Ok(value) => value,
            Err(_) => {
                return Err(ValidationError::Connections);
            },
        };
        if requests < 1 {
            return Err(ValidationError::Requests);
        }
        match check_target_url(target_url) {
            Ok(()) => {},
            Err(e) => {
                return Err(e);
            },
        }
        Ok(
            InputParams {
                connections,
                requests,
                target_url: String::from_str(target_url),
                output_file: None,
            },
        )
    }

    /// Names the file that the report of the run goes to, if a report may
    /// be written there. `exists` says whether there is such a file already.
    ///
    /// The other values stay as they are. A file that exists is turned down
    /// whatever its name, as by `check_output_file`.
    pub fn with_output_file(self, output_file: &str, exists: bool) -> (r: Result<
        InputParams,
        ReportWriteError,
    >)
        ensures
            r matches Ok(params) ==> {
                &&& !exists
                &&& params.output_file matches Some(name) && name@ == output_file@
                &&& params.connections == self.connections
                &&& params.requests == self.requests
                &&& params.target_url == self.target_url
            },
            r matches Err(e) ==> (e == ReportWriteError::AlreadyExists ==> exists),
            exists ==> r is Err,
    {
        match check_output_file(output_file, exists) {
            Ok(name) => Ok(
                InputParams {
                    connections: self.connections,
                    requests: self.requests,
                    target_url: self.target_url,
                    output_file: Some(name),
                },
            ),
            Err(e) => Err(e),
        }
    }
}

} // verus!
