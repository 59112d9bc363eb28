//! Error taxonomy and the closed classification of upstream HTTP statuses.

use vstd::prelude::*;

verus! {

/// Every failure the engine can surface, with the payloads the callers
/// need to render them.
#[derive(Debug, PartialEq)]
pub enum AppError {
    SessionError,
    CookieExpired,
    UpgradeRequired,
    UnderMaintenance,
    SignatureError,
    NoAccountError,
    NoClientAvailable,
    InvalidServerRegion(String),
    InvalidHttpStatus(u16),
    CryptoError(String),
    ParseError(String),
    NetworkError(String),
    DatabaseError(String),
    RedisError(String),
    IoError(String),
    AuthError(String),
    NotFound(String),
    Forbidden(String),
    Internal(String),
    Unknown { status: u16, body: String },
}

impl AppError {
    /// The HTTP status this error maps to at the service's edge.
    pub fn status_code(&self) -> (r: u16)
        ensures
            r == self.spec_status_code(),
    {
        match self {
            AppError::SessionError | AppError::CookieExpired => 403,
            AppError::UpgradeRequired => 426,
            AppError::UnderMaintenance => 503,
            AppError::InvalidServerRegion(_) | AppError::ParseError(_) => 400,
            AppError::AuthError(_) => 401,
            AppError::NotFound(_) => 404,
            AppError::Forbidden(_) => 403,
            AppError::NoClientAvailable | AppError::NoAccountError => 503,
            _ => 500,
        }
    }

    /// The status mapping, as a mathematical function: 403 for session,
    /// cookie and forbidden errors, 426 for upgrade, 503 for maintenance
    /// and missing capacity, 400 for bad regions and parse failures, 401
    /// for authentication, 404 for not-found, and 500 for the rest.
    pub open spec fn spec_status_code(&self) -> u16 {
        match self {
            AppError::SessionError | AppError::CookieExpired => 403,
            AppError::UpgradeRequired => 426,
            AppError::UnderMaintenance => 503,
            AppError::InvalidServerRegion(_) | AppError::ParseError(_) => 400,
            AppError::AuthError(_) => 401,
            AppError::NotFound(_) => 404,
            AppError::Forbidden(_) => 403,
            AppError::NoClientAvailable | AppError::NoAccountError => 503,
            _ => 500,
        }
    }
}

/// Whether a failed exchange is worth retrying: transport failures and
/// recoverable session states are; everything else is not.
pub fn is_retryable_error(error: &AppError) -> (r: bool)
    ensures
        r == (error is NetworkError || error is SessionError || error is CookieExpired),
{
    matches!(
        error,
        AppError::NetworkError(_) | AppError::SessionError | AppError::CookieExpired
    )
}

/// The body rendered for a failed request at the HTTP edge.
#[derive(Debug, PartialEq)]
pub struct ApiErrorResponse {
    pub result: String,
    pub status: u16,
    pub message: String,
}

impl ApiErrorResponse {
    /// Build the error body for `status`: the fixed word `failed`, the
    /// status itself, and the caller's message.
    pub fn for_status(status: u16, message: String) -> (r: ApiErrorResponse)
        ensures
            r.result@ == "failed"@,
            r.status == status,
            r.message == message,
    {
        ApiErrorResponse { result: "failed".to_owned(), status, message }
    }
}

/// The closed classification of upstream HTTP statuses the protocol knows.
#[derive(Debug, Clone, Copy, PartialEq, Eq, Structural)]
pub enum SekaiHttpStatus {
    Success,
    ClientError,
    SessionError,
    NotFound,
    Conflict,
    GameUpgrade,
    ServerError,
    UnderMaintenance,
}

impl SekaiHttpStatus {
    /// The numeric code of this classification.
    pub fn code(&self) -> (r: u16)
        ensures
            r == self.spec_code(),
    {
        match self {
            SekaiHttpStatus::Success => 200,
            SekaiHttpStatus::ClientError => 400,
            SekaiHttpStatus::SessionError => 403,
            SekaiHttpStatus::NotFound => 404,
            SekaiHttpStatus::Conflict => 409,
            SekaiHttpStatus::GameUpgrade => 426,
            SekaiHttpStatus::ServerError => 500,
            SekaiHttpStatus::UnderMaintenance => 503,
        }
    }

    /// The numeric code, as a spec-level function.
    pub open spec fn spec_code(&self) -> u16 {
        match self {
            SekaiHttpStatus::Success => 200,
            SekaiHttpStatus::ClientError => 400,
            SekaiHttpStatus::SessionError => 403,
            SekaiHttpStatus::NotFound => 404,
            SekaiHttpStatus::Conflict => 409,
            SekaiHttpStatus::GameUpgrade => 426,
            SekaiHttpStatus::ServerError => 500,
            SekaiHttpStatus::UnderMaintenance => 503,
        }
    }

    /// The classification of `code`, if it is one of the eight known codes.
    pub open spec fn spec_from_code(code: u16) -> Option<SekaiHttpStatus> {
        if code == 200 {
            Some(SekaiHttpStatus::Success)
        } else if code == 400 {
            Some(SekaiHttpStatus::ClientError)
        } else if code == 403 {
            Some(SekaiHttpStatus::SessionError)
        } else if code == 404 {
            Some(SekaiHttpStatus::NotFound)
        } else if code == 409 {
            Some(SekaiHttpStatus::Conflict)
        } else if code == 426 {
            Some(SekaiHttpStatus::GameUpgrade)
        } else if code == 500 {
            Some(SekaiHttpStatus::ServerError)
        } else if code == 503 {
            Some(SekaiHttpStatus::UnderMaintenance)
        } else {
            None
        }
    }

    /// Classify an upstream status code; any code outside the closed set
    /// is `InvalidHttpStatus` with that code.
    pub fn from_code(code: u16) -> (r: Result<SekaiHttpStatus, AppError>)
        ensures
            match r {
                Ok(s) => Self::spec_from_code(code) == Some(s),
                Err(e) => Self::spec_from_code(code) is None && e == (
                    AppError::InvalidHttpStatus(code)
                ),
            },
    {
        match code {
            200 => Ok(SekaiHttpStatus::Success),
            400 => Ok(SekaiHttpStatus::ClientError),
            403 => Ok(SekaiHttpStatus::SessionError),
            404 => Ok(SekaiHttpStatus::NotFound),
            409 => Ok(SekaiHttpStatus::Conflict),
            426 => Ok(SekaiHttpStatus::GameUpgrade),
            500 => Ok(SekaiHttpStatus::ServerError),
            503 => Ok(SekaiHttpStatus::UnderMaintenance),
            _ => Err(AppError::InvalidHttpStatus(code)),
        }
    }
}

} // verus!
