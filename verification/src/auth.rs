//! Access tokens: what the login response carries, when a token counts as valid, and the
//! text in which its expiry is stored.
use vstd::prelude::*;

use crate::text::{
    chars_of, lemma_parse_signed_decimal, parse_i64, parse_i64_exec, signed_decimal,
    signed_decimal_exec, string_of,
};
use crate::trusted::{since_unix_epoch, system_now, whole_seconds};

verus! {

/// Seconds before expiry from which a token no longer counts as valid.
pub const EXPIRY_MARGIN_SECS: i64 = 300;

/// Seconds a token lasts where the response does not say.
pub const DEFAULT_EXPIRES_IN: i64 = 86400;

/// A bearer token with the token that renews it and the UNIX time at which it expires.
pub struct TokenData {
    pub access_token: String,
    pub refresh_token: String,
    pub expires_at: i64,
}

/// The fields of a login response (under `data`) that a token is made from.
pub struct TokenResponse {
    pub access_token: Option<String>,
    pub refresh_token: Option<String>,
    pub expires_in: Option<i64>,
}

/// Why no token could be made.
#[derive(PartialEq, Eq, Structural, Debug, Clone, Copy)]
pub enum AuthError {
    /// The response holds no access token.
    NoAccessToken,
    /// The expiry time does not fit in an `i64`.
    ExpiryOutOfRange,
}

/// The lifetime that a response gives a token: its `expires_in`, or a day.
pub open spec fn lifetime(resp: TokenResponse) -> int {
    match resp.expires_in {
        Some(n) => n as int,
        None => DEFAULT_EXPIRES_IN as int,
    }
}

/// The expiry of a token that a response gives at time `now`: `now` plus its lifetime.
pub open spec fn expiry(resp: TokenResponse, now: int) -> int {
    now + lifetime(resp)
}

/// The token is still valid at `now`: it expires more than five minutes later.
pub open spec fn valid_at(expires_at: int, now: int) -> bool {
    expires_at > now + EXPIRY_MARGIN_SECS
}

/// The timestamp that a clock reading gives: the whole seconds since the epoch, `i64::MAX`
/// where they do not fit in an `i64`, and 0 where the clock stands before the epoch.
pub open spec fn timestamp_from(secs: Option<u64>) -> int {
    match secs {
        Some(s) => if s <= i64::MAX {
            s as int
        } else {
            i64::MAX as int
        },
        None => 0,
    }
}

/// The timestamp for `secs` whole seconds since the epoch (`None`: the clock stands before
/// it).
pub fn timestamp_of(secs: Option<u64>) -> (r: i64)
    ensures
        r == timestamp_from(secs),
{
    match secs {
        Some(s) => if s <= i64::MAX as u64 {
            s as i64
        } else {
            i64::MAX
        },
        None => 0,
    }
}

/// The current UNIX time in seconds, as `timestamp_of` makes it of the clock's reading.
/// Which time that is depends on the clock; what holds of every reading is that it comes
/// from some number of seconds since the epoch, or from none, and is not negative.
pub fn current_timestamp() -> (r: i64)
    ensures
        r >= 0,
        exists|secs: Option<u64>| r == timestamp_from(secs),
{
    let secs: Option<u64> = match since_unix_epoch(system_now()) {
        Ok(d) => Some(whole_seconds(&d)),
        Err(_) => None,
    };
    timestamp_of(secs)
}

impl TokenData {
    /// The token that a login response gives at time `now`: its access token (required),
    /// its refresh token (empty where absent) and an expiry of `now` plus its lifetime.
    pub fn from_response_at(resp: &TokenResponse, now: i64) -> (r: Result<TokenData, AuthError>)
        requires
            i64::MIN <= now + lifetime(*resp) <= i64::MAX,
        ensures
            match resp.access_token {
                None => r == Err::<TokenData, AuthError>(AuthError::NoAccessToken),
                Some(a) => r matches Ok(t) && t.access_token@ == a@ && t.refresh_token@ == (
                match resp.refresh_token {
                    Some(s) => s@,
                    None => Seq::empty(),
                }) && t.expires_at == now + lifetime(*resp),
            },
    {
        let access_token = match &resp.access_token {
            Some(a) => a.clone(),
            None => {
                return Err(AuthError::NoAccessToken);
            },
        };
        let refresh_token = match &resp.refresh_token {
            Some(s) => s.clone(),
            None => String::new(),
        };
        let expires_in: i64 = match resp.expires_in {
            Some(n) => n,
            None => DEFAULT_EXPIRES_IN,
        };
        Ok(TokenData { access_token, refresh_token, expires_at: now + expires_in })
    }

    /// The token that a login response gives now: its expiry is the clock's current reading
    /// (a time at or after the epoch) plus the response's lifetime. Fails with
    /// `NoAccessToken` exactly where the response holds none, and with `ExpiryOutOfRange`
    /// where that sum does not fit in an `i64`, which a lifetime of at most 0 never gives.
    pub fn from_response(resp: &TokenResponse) -> (r: Result<TokenData, AuthError>)
        ensures
            resp.access_token is None <==> r == Err::<TokenData, AuthError>(
                AuthError::NoAccessToken,
            ),
            r matches Ok(t) ==> resp.access_token matches Some(a) && t.access_token@ == a@
                && t.refresh_token@ == (match resp.refresh_token {
                Some(s) => s@,
                None => Seq::empty(),
            }) && exists|now: i64| now >= 0 && t.expires_at == #[trigger] expiry(*resp, now as int),
            r == Err::<TokenData, AuthError>(AuthError::ExpiryOutOfRange) ==> resp.access_token
                is Some && exists|now: i64| now >= 0 && #[trigger] expiry(*resp, now as int) > i64::MAX,
            resp.access_token is Some && lifetime(*resp) <= 0 ==> r is Ok,
    {
        let now = current_timestamp();
        if resp.access_token.is_none() {
            return Err(AuthError::NoAccessToken);
        }
        let expires_in: i64 = match resp.expires_in {
            Some(n) => n,
            None => DEFAULT_EXPIRES_IN,
        };
        proof {
            assert(expiry(*resp, now as int) == now + lifetime(*resp));
        }
        match now.checked_add(expires_in) {
            Some(_) => TokenData::from_response_at(resp, now),
            None => Err(AuthError::ExpiryOutOfRange),
        }
    }

    /// Whether the token is still valid at `now`, with a five-minute margin.
    pub fn is_valid_at(&self, now: i64) -> (b: bool)
        ensures
            b == valid_at(self.expires_at as int, now as int),
    {
        (self.expires_at as i128) > (now as i128) + (EXPIRY_MARGIN_SECS as i128)
    }

    /// Whether the token is still valid now, with a five-minute margin: its validity at the
    /// clock's current reading, which is a time at or after the epoch. Which reading that
    /// is depends on the clock.
    pub fn is_valid(&self) -> (b: bool)
        ensures
            exists|now: i64| now >= 0 && b == valid_at(self.expires_at as int, now as int),
    {
        let now = current_timestamp();
        self.is_valid_at(now)
    }

    /// The text in which the expiry is stored: the UNIX time in decimal.
    pub fn expiry_text(&self) -> (r: String)
        ensures
            r@ == signed_decimal(self.expires_at as int),
    {
        let v = signed_decimal_exec(self.expires_at);
        string_of(&v)
    }

    /// The token that stored values give: the expiry read from its text, 0 where the text
    /// is missing or no `i64` in decimal.
    pub fn from_stored(access_token: String, refresh_token: String, expiry: Option<String>) -> (r:
        TokenData)
        ensures
            r.access_token == access_token,
            r.refresh_token == refresh_token,
            r.expires_at == stored_expiry(match expiry {
                Some(s) => Some(s@),
                None => None,
            }),
    {
        let expires_at: i64 = match &expiry {
            Some(s) => match parse_i64_exec(&chars_of(s.as_str())) {
                Some(x) => x,
                None => 0,
            },
            None => 0,
        };
        TokenData { access_token, refresh_token, expires_at }
    }
}

/// The expiry that stored text gives: the `i64` it writes in decimal, else 0.
pub open spec fn stored_expiry(text: Option<Seq<char>>) -> int {
    match text {
        Some(t) => match parse_i64(t) {
            Some(x) => x,
            None => 0,
        },
        None => 0,
    }
}


/// Storing a token's expiry as text and reading it back gives the same expiry.
pub proof fn lemma_expiry_round_trip(expires_at: i64)
    ensures
        stored_expiry(Some(signed_decimal(expires_at as int))) == expires_at,
{
    lemma_parse_signed_decimal(expires_at as int);
}

/// A token that is valid at some time is valid at every earlier time, and valid exactly
/// while the time is more than five minutes before its expiry.
pub proof fn lemma_valid_earlier(expires_at: int, now: int, earlier: int)
    requires
        valid_at(expires_at, now),
        earlier <= now,
    ensures
        valid_at(expires_at, earlier),
        now < expires_at - EXPIRY_MARGIN_SECS,
{
}

// ---------------------------------------------------------------------------
// Starting a session
// ---------------------------------------------------------------------------

/// What the start of a run has learned about its session.
#[derive(PartialEq, Eq, Structural, Debug, Clone, Copy)]
pub enum SessionEvent {
    /// The keyring holds a token; `valid` tells whether it is still valid.
    SavedToken { valid: bool },
    /// The keyring holds no token.
    NoSavedToken,
    /// Renewing the saved token succeeded.
    Renewed,
    /// Renewing the saved token failed.
    RenewFailed,
    /// A login succeeded.
    LoggedIn,
    /// A login failed.
    LoginFailed,
}

/// What to do next while starting a session.
#[derive(PartialEq, Eq, Structural, Debug, Clone, Copy)]
pub enum SessionAction {
    /// Use the saved token as it is.
    UseSavedToken,
    /// Try to renew the saved token.
    RenewToken,
    /// Log in with the configured credentials.
    LogIn,
    /// Ask for a password and log in with it.
    PromptAndLogIn,
    /// The session is ready; save its token.
    Ready,
    /// Authentication failed.
    GiveUp,
}

/// The next step in starting a session: a valid saved token is used, an expired one
/// renewed, and a failed renewal or a missing token leads to a login; a failed login is
/// final when the password was prompted for or when both username and password were
/// given, and otherwise leads to a prompt.
pub open spec fn session_next(event: SessionEvent, have_credentials: bool, prompted: bool) -> SessionAction {
    match event {
        SessionEvent::SavedToken { valid } => if valid {
            SessionAction::UseSavedToken
        } else {
            SessionAction::RenewToken
        },
        SessionEvent::NoSavedToken => SessionAction::LogIn,
        SessionEvent::Renewed => SessionAction::Ready,
        SessionEvent::RenewFailed => SessionAction::LogIn,
        SessionEvent::LoggedIn => SessionAction::Ready,
        SessionEvent::LoginFailed => if prompted || have_credentials {
            SessionAction::GiveUp
        } else {
            SessionAction::PromptAndLogIn
        },
    }
}

/// Decides the next step in starting a session. `have_credentials` tells whether both a
/// username and a password were given, `prompted` whether the last login used a prompted
/// password.
pub fn session_step(event: SessionEvent, have_credentials: bool, prompted: bool) -> (a: SessionAction)
    ensures
        a == session_next(event, have_credentials, prompted),
{
    match event {
        SessionEvent::SavedToken { valid } => if valid {
            SessionAction::UseSavedToken
        } else {
            SessionAction::RenewToken
        },
        SessionEvent::NoSavedToken => SessionAction::LogIn,
        SessionEvent::Renewed => SessionAction::Ready,
        SessionEvent::RenewFailed => SessionAction::LogIn,
        SessionEvent::LoggedIn => SessionAction::Ready,
        SessionEvent::LoginFailed => if prompted || have_credentials {
            SessionAction::GiveUp
        } else {
            SessionAction::PromptAndLogIn
        },
    }
}
}
