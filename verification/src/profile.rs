//! Account profiles for the remote-login surface: the user record shown
//! to callers, the request shapes, and the pure construction rules —
//! password length validation, linking a profile to a remote account and
//! unlinking it again. The network calls that surround these decisions
//! stay outside the library.
use vstd::prelude::*;
use vstd::string::*;

use crate::models::{opt_str, AppError};

verus! {

/// An account as the login surface reports it.
pub struct User {
    pub id: String,
    pub email: Option<String>,
    pub display_name: Option<String>,
    pub server_id: Option<i64>,
    pub is_linked: bool,
    pub created_at: i64,
    pub updated_at: i64,
}

pub struct CreateLocalUserRequest {
    pub display_name: String,
    pub email: Option<String>,
    pub password: Option<String>,
}

pub struct LocalLoginRequest {
    pub email: String,
    pub password: String,
}

pub struct RemoteLoginRequest {
    pub email: String,
    pub password: String,
    pub api_url: String,
}

pub struct LinkAccountRequest {
    pub email: String,
    pub password: String,
    pub api_url: String,
}

/// A login surface answer: the account, and whether it was just made.
pub struct AuthResponse {
    pub user: User,
    pub is_new: bool,
}

/// Builds a fresh unlinked account from a creation request under a
/// caller-supplied identifier and time. A password shorter than six
/// characters is rejected.
pub fn create_local_user(request: &CreateLocalUserRequest, id: String, now: i64) -> (r: Result<
    AuthResponse,
    AppError,
>)
    ensures
        r matches Ok(a) ==> {
            &&& a.is_new
            &&& a.user.id@ == id@
            &&& opt_str(a.user.email) == opt_str(request.email)
            &&& opt_str(a.user.display_name) == Option::Some(request.display_name@)
            &&& a.user.server_id.is_none()
            &&& !a.user.is_linked
            &&& a.user.created_at == now
            &&& a.user.updated_at == now
        },
        r is Ok <==> (match request.password {
            Option::Some(p) => p@.len() >= 6,
            Option::None => true,
        }),
        r is Err ==> r == Result::<AuthResponse, AppError>::Err(AppError::Validation),
{
    match &request.password {
        Option::Some(p) => {
            if p.as_str().unicode_len() < 6 {
                return Result::Err(AppError::Validation);
            }
        },
        Option::None => {},
    }
    let user = User {
        id,
        email: crate::models::clone_opt_string(&request.email),
        display_name: Option::Some(request.display_name.clone()),
        server_id: Option::None,
        is_linked: false,
        created_at: now,
        updated_at: now,
    };
    Result::Ok(AuthResponse { user, is_new: true })
}

/// Links an account to a remote identity: the remote server's user key
/// and confirmed email replace the local ones.
pub fn link_remote_profile(user_id: String, email: String, server_id: i64, now: i64) -> (u: User)
    ensures
        u.id@ == user_id@,
        u.email matches Some(e) && e@ == email@,
        u.display_name.is_none(),
        u.server_id == Option::Some(server_id),
        u.is_linked,
        u.created_at == now,
        u.updated_at == now,
{
    User {
        id: user_id,
        email: Option::Some(email),
        display_name: Option::None,
        server_id: Option::Some(server_id),
        is_linked: true,
        created_at: now,
        updated_at: now,
    }
}

/// Unlinks an account from its remote identity, keeping the local data:
/// the remote key and email are cleared and a local display name set.
pub fn unlink_remote_profile(user_id: String, now: i64) -> (u: User)
    ensures
        u.id@ == user_id@,
        u.email.is_none(),
        u.display_name matches Some(d) && d@ == "Local User"@,
        u.server_id.is_none(),
        !u.is_linked,
        u.created_at == now,
        u.updated_at == now,
{
    User {
        id: user_id,
        email: Option::None,
        display_name: Option::Some("Local User".to_owned()),
        server_id: Option::None,
        is_linked: false,
        created_at: now,
        updated_at: now,
    }
}

} // verus!
