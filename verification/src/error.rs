//! The errors that the marketplace logic reports.

use vstd::prelude::*;

verus! {

/// Why a marketplace operation was refused.
#[derive(Debug)]
pub enum FinboxError {
    /// No fresh cached skill has this key.
    SkillNotFound { key: String },
    /// The skill has no download URL to install from.
    NoDownloadUrl { key: String },
    /// The application name the install targets is not a known application type.
    InvalidAppType { app: String, reason: String },
    /// The download URL is neither an archive nor a GitHub repository URL.
    UnsupportedUrl { url: String },
    /// No single-sign-on cookie has been configured.
    MissingSsoCookie,
    /// The Finbox server answered that the single-sign-on session has expired.
    SsoExpired,
}

/// The text of an error, as the front end shows it.
pub open spec fn error_message(e: FinboxError) -> Seq<char> {
    match e {
        FinboxError::SkillNotFound { key } => "Skill '"@ + key@ + "' not found"@,
        FinboxError::NoDownloadUrl { key } => "Skill '"@ + key@ + "' has no download URL"@,
        FinboxError::InvalidAppType { app, reason } => "Invalid app type '"@ + app@ + "': "@ + reason@,
        FinboxError::UnsupportedUrl { url } => "Not a supported URL: "@ + url@,
        FinboxError::MissingSsoCookie => "未配置京东 SSO Cookie，请先登录 Finbox"@,
        FinboxError::SsoExpired => "SSO 登录已过期，请重新登录"@,
    }
}

impl FinboxError {
    /// The text of the error (see `error_message`).
    pub fn message(&self) -> (res: String)
        ensures
            res@ == error_message(*self),
    {
        match self {
            FinboxError::SkillNotFound { key } => {
                let mut s = String::from_str("Skill '");
                s.append(key.as_str());
                s.append("' not found");
                s
            },
            FinboxError::NoDownloadUrl { key } => {
                let mut s = String::from_str("Skill '");
                s.append(key.as_str());
                s.append("' has no download URL");
                s
            },
            FinboxError::InvalidAppType { app, reason } => {
                let mut s = String::from_str("Invalid app type '");
                s.append(app.as_str());
                s.append("': ");
                s.append(reason.as_str());
                s
            },
            FinboxError::UnsupportedUrl { url } => {
                let mut s = String::from_str("Not a supported URL: ");
                s.append(url.as_str());
                s
            },
            FinboxError::MissingSsoCookie => String::from_str("未配置京东 SSO Cookie，请先登录 Finbox"),
            FinboxError::SsoExpired => String::from_str("SSO 登录已过期，请重新登录"),
        }
    }
}

} // verus!
