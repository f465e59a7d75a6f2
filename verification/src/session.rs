use vstd::prelude::*;
use vstd::string::*;
use crate::error::{Error, ErrorView};
use crate::json::JsonValue;
use crate::response::{parse_login_response, parse_lookup_response, spec_first_error,
    spec_login_token};

verus! {

/// Where the session stands in the token lifecycle.
pub enum SessionState {
    /// Nothing tried yet; the cache has not been read.
    NoToken,
    /// A cached token was loaded and awaits validation.
    ProbingCached(String),
    /// No usable cached token: an interactive login is owed.
    NeedLogin,
    /// One valid token is held for the rest of the process lifetime.
    Authenticated(String),
    /// Interactive login failed; the failure is terminal.
    Failed,
}

/// The shape of a `SessionState`.
pub enum SessionStateView {
    NoToken,
    ProbingCached(Seq<char>),
    NeedLogin,
    Authenticated(Seq<char>),
    Failed,
}

impl View for SessionState {
    type V = SessionStateView;

    open spec fn view(&self) -> SessionStateView {
        match self {
            SessionState::NoToken => SessionStateView::NoToken,
            SessionState::ProbingCached(t) => SessionStateView::ProbingCached(t@),
            SessionState::NeedLogin => SessionStateView::NeedLogin,
            SessionState::Authenticated(t) => SessionStateView::Authenticated(t@),
            SessionState::Failed => SessionStateView::Failed,
        }
    }
}

/// What the caller must do next to move the session forward.
pub enum SessionAction {
    /// Validate the given token with a lightweight self-lookup call.
    Validate(String),
    /// Prompt for a password (masked, no echo) and send a login request.
    PromptLogin,
    /// Persist the freshly issued token to the cache, then proceed.
    StoreToken(String),
    /// The session is authenticated; nothing is left to do.
    Ready,
    /// The bootstrap failed; surface the error to the caller.
    Fail(Error),
}

/// The shape of a `SessionAction`.
pub enum SessionActionView {
    Validate(Seq<char>),
    PromptLogin,
    StoreToken(Seq<char>),
    Ready,
    Fail(ErrorView),
}

impl View for SessionAction {
    type V = SessionActionView;

    open spec fn view(&self) -> SessionActionView {
        match self {
            SessionAction::Validate(t) => SessionActionView::Validate(t@),
            SessionAction::PromptLogin => SessionActionView::PromptLogin,
            SessionAction::StoreToken(t) => SessionActionView::StoreToken(t@),
            SessionAction::Ready => SessionActionView::Ready,
            SessionAction::Fail(e) => SessionActionView::Fail(e@),
        }
    }
}

/// What the cache probe decides: a loaded token is validated before use; a
/// missing or unreadable cache goes straight to interactive login.
pub open spec fn step_cached(tok: Option<Seq<char>>) -> (SessionStateView, SessionActionView) {
    match tok {
        Some(t) => (SessionStateView::ProbingCached(t), SessionActionView::Validate(t)),
        None => (SessionStateView::NeedLogin, SessionActionView::PromptLogin),
    }
}

/// What the validation outcome decides: any success accepts the cached
/// token; any failure falls back to exactly one interactive login.
pub open spec fn step_validated(cached: Seq<char>, ok: bool) -> (
    SessionStateView,
    SessionActionView,
) {
    if ok {
        (SessionStateView::Authenticated(cached), SessionActionView::Ready)
    } else {
        (SessionStateView::NeedLogin, SessionActionView::PromptLogin)
    }
}

/// What the login response decides: an explicit error payload is a terminal
/// rejection; an issued token authenticates the session and is ordered into
/// the cache before anything else happens; a clean body without a token is
/// malformed and terminal.
pub open spec fn step_login(err: Option<Seq<char>>, token: Option<Seq<char>>) -> (
    SessionStateView,
    SessionActionView,
) {
    match err {
        Some(m) => (SessionStateView::Failed, SessionActionView::Fail(ErrorView::Vault(m))),
        None => match token {
            Some(t) => (
                SessionStateView::Authenticated(t),
                SessionActionView::StoreToken(t),
            ),
            None => (
                SessionStateView::Failed,
                SessionActionView::Fail(ErrorView::Runtime("Login response carries no token"@)),
            ),
        },
    }
}

/// What the revocation status decides: a 403 means the token was already
/// invalid, which leaves the same end state as a successful revocation, so
/// it succeeds with a warning; any other non-2xx keeps the token and fails.
/// On success the caller erases the cached entry.
pub open spec fn step_logout(t: Seq<char>, status: u16) -> (
    SessionStateView,
    Result<bool, ErrorView>,
) {
    if status == 403 {
        (SessionStateView::NoToken, Ok(true))
    } else if 200 <= status < 300 {
        (SessionStateView::NoToken, Ok(false))
    } else {
        (SessionStateView::Authenticated(t), Err(ErrorView::Vault("Failed to logout"@)))
    }
}

/// The session manager: owns the one token of the process and decides, step
/// by step, how to authenticate with as few prompts and round-trips as
/// possible. Each `on_*` method consumes one outside event and returns what
/// the caller must do next; the caller performs I/O only.
pub struct Session {
    pub state: SessionState,
}

impl Session {
    /// A fresh session: nothing probed, nothing held.
    pub fn new() -> (r: Session)
        ensures
            r.state@ == SessionStateView::NoToken,
    {
        Session { state: SessionState::NoToken }
    }

    /// The held token, once authenticated.
    pub fn token(&self) -> (r: Option<&String>)
        ensures
            match r {
                Some(t) => self.state@ == SessionStateView::Authenticated(t@),
                None => !(self.state@ is Authenticated),
            },
    {
        match &self.state {
            SessionState::Authenticated(t) => Some(t),
            _ => None,
        }
    }

    /// Resume with a cached token without validating it. The logout flow
    /// does this: revocation needs no live token, since a stale one is
    /// settled by the revoke status itself.
    pub fn adopt_cached_token(&mut self, tok: String)
        requires
            old(self).state@ is NoToken,
        ensures
            final(self).state@ == SessionStateView::Authenticated(tok@),
    {
        self.state = SessionState::Authenticated(tok);
    }

    /// Feed the result of the cache probe: the cached token if one could be
    /// read, `None` when the cache is absent or unreadable.
    pub fn on_cached_token(&mut self, tok: Option<String>) -> (a: SessionAction)
        requires
            old(self).state@ is NoToken,
        ensures
            (final(self).state@, a@) == step_cached(tok.deep_view()),
    {
        match tok {
            Some(t) => {
                let copy = t.clone();
                self.state = SessionState::ProbingCached(t);
                SessionAction::Validate(copy)
            },
            None => {
                self.state = SessionState::NeedLogin;
                SessionAction::PromptLogin
            },
        }
    }

    /// Feed the self-lookup response for the cached token. Any body without
    /// an error payload counts as valid, even one lacking expected fields;
    /// `None` stands for a transport failure, which also falls back.
    pub fn on_validation(&mut self, response: Option<&JsonValue>) -> (a: SessionAction)
        requires
            old(self).state@ is ProbingCached,
        ensures
            (final(self).state@, a@) == step_validated(
                old(self).state@->ProbingCached_0,
                response matches Some(v) && spec_first_error(v@) is None,
            ),
    {
        let ok = match response {
            Some(v) => parse_lookup_response(v).is_ok(),
            None => false,
        };
        if ok {
            let t = match &self.state {
                SessionState::ProbingCached(t) => t.clone(),
                _ => {
                    proof {
                        assert(false);
                    }
                    String::new()
                },
            };
            self.state = SessionState::Authenticated(t);
            SessionAction::Ready
        } else {
            self.state = SessionState::NeedLogin;
            SessionAction::PromptLogin
        }
    }

    /// Feed the login response body.
    pub fn on_login_response(&mut self, response: &JsonValue) -> (a: SessionAction)
        requires
            old(self).state@ is NeedLogin,
        ensures
            (final(self).state@, a@) == step_login(
                spec_first_error(response@),
                spec_login_token(response@),
            ),
    {
        match parse_login_response(response) {
            Ok(t) => {
                let copy = t.clone();
                self.state = SessionState::Authenticated(t);
                SessionAction::StoreToken(copy)
            },
            Err(e) => {
                self.state = SessionState::Failed;
                SessionAction::Fail(e)
            },
        }
    }

    /// Feed the HTTP status of the revoke call. `Ok(true)` is the
    /// already-invalid outcome, succeeded with a warning; on any `Ok` the
    /// caller erases the cached token entry.
    pub fn on_logout_status(&mut self, status: u16) -> (r: Result<bool, Error>)
        requires
            old(self).state@ is Authenticated,
        ensures
            (
                final(self).state@,
                match r {
                    Ok(w) => Ok::<bool, ErrorView>(w),
                    Err(e) => Err(e@),
                },
            ) == step_logout(old(self).state@->Authenticated_0, status),
    {
        if status == 403 {
            self.state = SessionState::NoToken;
            Ok(true)
        } else if 200 <= status && status < 300 {
            self.state = SessionState::NoToken;
            Ok(false)
        } else {
            Err(Error::VaultError(String::from_str("Failed to logout")))
        }
    }
}

/// Bootstrap with a valid cached token: the lightweight validation call is
/// all that happens. No interactive prompt is requested, no login call is
/// made, and no token is written back to the cache.
pub proof fn lemma_cached_token_bootstrap(t: Seq<char>)
    ensures
        step_cached(Some(t)) == (
            SessionStateView::ProbingCached(t),
            SessionActionView::Validate(t),
        ),
        step_validated(t, true) == (
            SessionStateView::Authenticated(t),
            SessionActionView::Ready,
        ),
        !(step_cached(Some(t)).1 is PromptLogin),
        !(step_validated(t, true).1 is PromptLogin),
        !(step_cached(Some(t)).1 is StoreToken),
        !(step_validated(t, true).1 is StoreToken),
{
}

/// Bootstrap with a missing or invalid cached token: exactly one interactive
/// login is requested, and when it succeeds the machine orders the fresh
/// token stored into the cache before the session is usable.
pub proof fn lemma_fallback_login(cached: Option<Seq<char>>, valid: bool, issued: Seq<char>)
    requires
        cached is None || !valid,
    ensures
        cached matches Some(c) ==> step_cached(cached) == (
            SessionStateView::ProbingCached(c),
            SessionActionView::Validate(c),
        ) && step_validated(c, valid).1 == SessionActionView::PromptLogin,
        cached is None ==> step_cached(cached).1 == SessionActionView::PromptLogin,
        step_login(None, Some(issued)) == (
            SessionStateView::Authenticated(issued),
            SessionActionView::StoreToken(issued),
        ),
{
}

/// Logging out with a token the server reports as already revoked completes
/// without error: the in-memory token is cleared, the caller erases the
/// cached entry, and only a warning is left.
pub proof fn lemma_logout_already_revoked(t: Seq<char>)
    ensures
        step_logout(t, 403) == (SessionStateView::NoToken, Ok::<bool, ErrorView>(true)),
{
}

} // verus!
