use vstd::prelude::*;

verus! {

/// Errors of the service. Each variant carries a human readable detail.
#[derive(Clone, Debug)]
pub enum AppError {
    InternalServerError(String),
    NotFound(String),
    BadRequest(String),
    TemplatingError(String),
    IdentityError(String),
    SessionError(String),
    CookieError(String),
    FileError(String),
    DataFileLoadError(String),
    Unauthorized(String),
    ParseError(String),
    EnvVarError(String),
    ConfigError(String),
    RequestError(String),
    FmtError(String),
    DatetimeError(String),
    SchedulerError(String),
    ListLoadError(String),
    AddressManipulationError(String),
}

/// An error together with the HTTP status code it is answered with.
pub struct GenericError {
    pub code: u16,
    pub error: AppError,
}

impl AppError {
    /// The detail text carried by the error.
    pub open spec fn detail(&self) -> Seq<char> {
        match self {
            AppError::InternalServerError(m) => m@,
            AppError::NotFound(m) => m@,
            AppError::BadRequest(m) => m@,
            AppError::TemplatingError(m) => m@,
            AppError::IdentityError(m) => m@,
            AppError::SessionError(m) => m@,
            AppError::CookieError(m) => m@,
            AppError::FileError(m) => m@,
            AppError::DataFileLoadError(m) => m@,
            AppError::Unauthorized(m) => m@,
            AppError::ParseError(m) => m@,
            AppError::EnvVarError(m) => m@,
            AppError::ConfigError(m) => m@,
            AppError::RequestError(m) => m@,
            AppError::FmtError(m) => m@,
            AppError::DatetimeError(m) => m@,
            AppError::SchedulerError(m) => m@,
            AppError::ListLoadError(m) => m@,
            AppError::AddressManipulationError(m) => m@,
        }
    }

    /// The fixed text that the message of each kind of error starts with.
    pub open spec fn spec_title(&self) -> Seq<char> {
        match self {
            AppError::InternalServerError(_) => "Internal server error: "@,
            AppError::NotFound(_) => "Not found: "@,
            AppError::BadRequest(_) => "Bad request: "@,
            AppError::TemplatingError(_) => "Templating error: "@,
            AppError::IdentityError(_) => "Identity error: "@,
            AppError::SessionError(_) => "Session error: "@,
            AppError::CookieError(_) => "Cookie error: "@,
            AppError::FileError(_) => "File error: "@,
            AppError::DataFileLoadError(_) => "Data File load error: "@,
            AppError::Unauthorized(_) => "Unauthorized: "@,
            AppError::ParseError(_) => "Parse error: "@,
            AppError::EnvVarError(_) => "Could not load the env var: "@,
            AppError::ConfigError(_) => "Config error: "@,
            AppError::RequestError(_) => "Request error: "@,
            AppError::FmtError(_) => "Format error: "@,
            AppError::DatetimeError(_) => "Datetime error: "@,
            AppError::SchedulerError(_) => "Scheduler error: "@,
            AppError::ListLoadError(_) => "List load error: "@,
            AppError::AddressManipulationError(_) => "Address manipulation error: "@,
        }
    }

    /// The text shown for the error: the kind's title followed by the detail.
    pub open spec fn spec_message(&self) -> Seq<char> {
        self.spec_title() + self.detail()
    }

    /// The HTTP status code that answers the error.
    pub open spec fn spec_status_code(&self) -> u16 {
        match self {
            AppError::BadRequest(_) | AppError::ParseError(_) => 400,
            AppError::NotFound(_) => 404,
            AppError::Unauthorized(_) => 401,
            _ => 500,
        }
    }

    fn title(&self) -> (r: &'static str)
        ensures
            r@ == self.spec_title(),
    {
        match self {
            AppError::InternalServerError(_) => "Internal server error: ",
            AppError::NotFound(_) => "Not found: ",
            AppError::BadRequest(_) => "Bad request: ",
            AppError::TemplatingError(_) => "Templating error: ",
            AppError::IdentityError(_) => "Identity error: ",
            AppError::SessionError(_) => "Session error: ",
            AppError::CookieError(_) => "Cookie error: ",
            AppError::FileError(_) => "File error: ",
            AppError::DataFileLoadError(_) => "Data File load error: ",
            AppError::Unauthorized(_) => "Unauthorized: ",
            AppError::ParseError(_) => "Parse error: ",
            AppError::EnvVarError(_) => "Could not load the env var: ",
            AppError::ConfigError(_) => "Config error: ",
            AppError::RequestError(_) => "Request error: ",
            AppError::FmtError(_) => "Format error: ",
            AppError::DatetimeError(_) => "Datetime error: ",
            AppError::SchedulerError(_) => "Scheduler error: ",
            AppError::ListLoadError(_) => "List load error: ",
            AppError::AddressManipulationError(_) => "Address manipulation error: ",
        }
    }

    fn detail_str(&self) -> (r: &str)
        ensures
            r@ == self.detail(),
    {
        match self {
            AppError::InternalServerError(m) => m.as_str(),
            AppError::NotFound(m) => m.as_str(),
            AppError::BadRequest(m) => m.as_str(),
            AppError::TemplatingError(m) => m.as_str(),
            AppError::IdentityError(m) => m.as_str(),
            AppError::SessionError(m) => m.as_str(),
            AppError::CookieError(m) => m.as_str(),
            AppError::FileError(m) => m.as_str(),
            AppError::DataFileLoadError(m) => m.as_str(),
            AppError::Unauthorized(m) => m.as_str(),
            AppError::ParseError(m) => m.as_str(),
            AppError::EnvVarError(m) => m.as_str(),
            AppError::ConfigError(m) => m.as_str(),
            AppError::RequestError(m) => m.as_str(),
            AppError::FmtError(m) => m.as_str(),
            AppError::DatetimeError(m) => m.as_str(),
            AppError::SchedulerError(m) => m.as_str(),
            AppError::ListLoadError(m) => m.as_str(),
            AppError::AddressManipulationError(m) => m.as_str(),
        }
    }

    /// The text shown for the error: the kind's title followed by the detail.
    pub fn message(&self) -> (r: String)
        ensures
            r@ == self.spec_message(),
    {
        let s = String::from_str(self.title());
        s.concat(self.detail_str())
    }

    /// The HTTP status code of the response that reports this error.
    pub fn status_code(&self) -> (r: u16)
        ensures
            r == self.spec_status_code(),
    {
        match self {
            AppError::BadRequest(_) | AppError::ParseError(_) => 400,
            AppError::NotFound(_) => 404,
            AppError::Unauthorized(_) => 401,
            _ => 500,
        }
    }

    /// The body of the response that reports this error.
    pub fn into_generic(self) -> (r: GenericError)
        ensures
            r.code == self.spec_status_code(),
            r.error == self,
    {
        let code = self.status_code();
        GenericError { code, error: self }
    }
}

} // verus!
