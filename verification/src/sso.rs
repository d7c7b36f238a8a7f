//! Single sign-on: when the login window has reached Finbox, and the cookie kept
//! across restarts.

use vstd::prelude::*;
use crate::service::FinboxMarketplaceService;
use crate::text::{has_prefix, has_substring, str_contains, str_starts_with};

verus! {

/// The settings key the single-sign-on cookie is stored under.
pub const FINBOX_SSO_COOKIE_KEY: &'static str = "finbox_sso_cookie";

/// The label of the login window.
pub const FINBOX_SSO_WINDOW_LABEL: &'static str = "finbox-sso";

/// The page the login window opens.
pub const FINBOX_SSO_LOGIN_URL: &'static str = "https://finbox.jd.com/coverage";

/// The login is complete once the window navigates to a Finbox page that is
/// neither a single-sign-on page nor the identity provider.
pub open spec fn login_completed(url: Seq<char>) -> bool {
    &&& has_prefix(url, "https://finbox.jd.com/"@)
    &&& !has_substring(url, "/sso/"@)
    &&& !has_substring(url, "ssa.jd.com"@)
}

/// Whether a navigation of the login window to `url` completes the login, so
/// that the cookie is to be read (see `login_completed`).
pub fn sso_login_completed(url: &str) -> (res: bool)
    ensures
        res == login_completed(url@),
{
    str_starts_with(url, "https://finbox.jd.com/") && !str_contains(url, "/sso/") && !str_contains(url, "ssa.jd.com")
}

/// Gives the service the cookie read back from the settings table, if one was stored.
pub fn load_persisted_sso_cookie(stored: Option<String>, finbox_service: &mut FinboxMarketplaceService)
    ensures
        final(finbox_service).cookie() == match stored {
            Some(c) => Some(c@),
            None => old(finbox_service).cookie(),
        },
{
    finbox_service.restore_sso_cookie(stored);
}

/// The script run in the login window to hand the page's cookies to the application.
pub const FINBOX_SSO_EXTRACT_SCRIPT: &'static str = "
                        (function() {
                            var cookies = document.cookie;
                            if (cookies && cookies.length > 0) {
                                window.__TAURI__.core.invoke('set_finbox_sso_cookie', { cookie: cookies });
                            }
                        })();
                    ";

/// What opening the login window does.
#[derive(Debug)]
pub enum SsoOpenAction {
    /// A login window is already open: show it and give it focus.
    FocusExisting,
    /// Create the login window on the Finbox login page.
    CreateWindow,
}

/// Opening the login window reuses an open one, or else creates it.
pub fn sso_open_action(window_exists: bool) -> (res: SsoOpenAction)
    ensures
        window_exists <==> res is FocusExisting,
{
    if window_exists {
        SsoOpenAction::FocusExisting
    } else {
        SsoOpenAction::CreateWindow
    }
}

/// How the cookie extraction in the login window went.
#[derive(Debug)]
pub enum SsoExtraction {
    /// The login window had closed before the extraction was due.
    WindowGone,
    /// The extraction script could not be run in the window.
    ScriptFailed,
    /// The script ran; then the service held this cookie.
    CookieRead { cookie: Option<String> },
}

/// What follows an extraction.
#[derive(Debug)]
pub struct SsoExtractionOutcome {
    /// The cookie to store in the settings table, if any.
    pub persist_cookie: Option<String>,
    /// Whether to tell the front end that the login succeeded.
    pub notify_success: bool,
    /// Whether to close the login window.
    pub close_window: bool,
}

/// After an extraction: with a cookie, store it and report success; once the
/// script has run, close the window; when the window is gone or the script
/// failed, do nothing more.
pub fn sso_extraction_outcome(step: SsoExtraction) -> (res: SsoExtractionOutcome)
    ensures
        match step {
            SsoExtraction::WindowGone | SsoExtraction::ScriptFailed => res.persist_cookie.is_none()
                && !res.notify_success && !res.close_window,
            SsoExtraction::CookieRead { cookie } => res.persist_cookie == cookie
                && res.notify_success == cookie.is_some() && res.close_window,
        },
{
    match step {
        SsoExtraction::WindowGone | SsoExtraction::ScriptFailed => SsoExtractionOutcome {
            persist_cookie: None,
            notify_success: false,
            close_window: false,
        },
        SsoExtraction::CookieRead { cookie } => {
            let notify = cookie.is_some();
            SsoExtractionOutcome { persist_cookie: cookie, notify_success: notify, close_window: true }
        },
    }
}

} // verus!
