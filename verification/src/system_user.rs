//! Request and response shapes of the user administration endpoints;
//! the transport layer serializes them.

use vstd::prelude::*;

verus! {

/// A user in list responses.
#[derive(Debug, Clone)]
pub struct SystemUserResp {
    pub id: i64,
    pub username: String,
    pub nickname: String,
    pub avatar: String,
    pub gender: i16,
    pub email: String,
    pub phone: String,
    pub description: String,
    pub status: i16,
    pub is_system: bool,
    pub create_user_string: String,
    pub create_time: String,
    pub update_user_string: String,
    pub update_time: String,
    pub dept_id: i64,
    pub dept_name: String,
    pub role_ids: Vec<i64>,
    pub role_names: Vec<String>,
    pub disabled: bool,
}

/// A user in detail responses, with the password reset time when set.
#[derive(Debug, Clone)]
pub struct SystemUserDetailResp {
    pub base: SystemUserResp,
    pub pwd_reset_time: Option<String>,
}

/// Query parameters of the user page.
#[derive(Debug)]
pub struct SystemUserListQuery {
    pub page: Option<i64>,
    pub size: Option<i64>,
    pub description: Option<String>,
    pub status: Option<String>,
    pub dept_id: Option<String>,
}

/// Body of user creation and update.
#[derive(Debug)]
pub struct SystemUserReq {
    pub username: String,
    pub nickname: String,
    pub password: Option<String>,
    pub gender: i16,
    pub email: String,
    pub phone: String,
    pub avatar: String,
    pub description: String,
    pub status: i16,
    pub dept_id: i64,
    pub role_ids: Vec<i64>,
}

/// Body of a password reset.
#[derive(Debug)]
pub struct SystemUserPasswordResetReq {
    pub new_password: String,
}

/// Body of a role assignment update.
#[derive(Debug)]
pub struct SystemUserRoleUpdateReq {
    pub role_ids: Vec<i64>,
}

/// A batch of ids.
#[derive(Debug)]
pub struct IdsRequest {
    pub ids: Vec<i64>,
}

/// Summary of a parsed user import file.
#[derive(Debug)]
pub struct UserImportParseResp {
    pub import_key: String,
    pub total_rows: i32,
    pub valid_rows: i32,
    pub duplicate_user_rows: i32,
    pub duplicate_email_rows: i32,
    pub duplicate_phone_rows: i32,
}

/// Summary of an applied user import.
#[derive(Debug)]
pub struct UserImportResultResp {
    pub total_rows: i32,
    pub insert_rows: i32,
    pub update_rows: i32,
}

} // verus!
