//! Request and response shapes of the role administration endpoints;
//! the transport layer serializes them.

use vstd::prelude::*;

verus! {

/// A role in list responses.
#[derive(Debug, Clone)]
pub struct RoleResp {
    pub id: i64,
    pub name: String,
    pub code: String,
    pub sort: i32,
    pub description: String,
    pub data_scope: i32,
    pub is_system: bool,
    pub create_user_string: String,
    pub create_time: String,
    pub update_user_string: String,
    pub update_time: String,
    pub disabled: bool,
}

/// A role in detail responses, with its granted menus and departments.
#[derive(Debug, Clone)]
pub struct RoleDetailResp {
    pub base: RoleResp,
    pub menu_ids: Vec<i64>,
    pub dept_ids: Vec<i64>,
    pub menu_check_strictly: bool,
    pub dept_check_strictly: bool,
}

/// A user listed under a role.
#[derive(Debug, Clone)]
pub struct RoleUserResp {
    pub id: i64,
    pub role_id: i64,
    pub user_id: i64,
    pub username: String,
    pub nickname: String,
    pub gender: i16,
    pub status: i16,
    pub is_system: bool,
    pub description: String,
    pub dept_id: i64,
    pub dept_name: String,
    pub role_ids: Vec<i64>,
    pub role_names: Vec<String>,
    pub disabled: bool,
}

/// Query parameters of the role list.
#[derive(Debug)]
pub struct RoleListQuery {
    pub description: Option<String>,
}

/// Body of role creation and update.
#[derive(Debug)]
pub struct RoleReq {
    pub name: String,
    pub code: String,
    pub sort: i32,
    pub description: String,
    pub data_scope: i32,
    pub dept_ids: Vec<i64>,
    pub dept_check_strictly: bool,
}

/// Body of a role permission update.
#[derive(Debug)]
pub struct RolePermissionReq {
    pub menu_ids: Vec<i64>,
    pub menu_check_strictly: bool,
}

/// Query parameters of the role-user page.
#[derive(Debug)]
pub struct RoleUserPageQuery {
    pub page: Option<i64>,
    pub size: Option<i64>,
    pub description: Option<String>,
}

/// A batch of ids.
#[derive(Debug)]
pub struct IdsRequest {
    pub ids: Vec<i64>,
}

} // verus!
