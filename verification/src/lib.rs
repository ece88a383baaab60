//! Authentication and authorization core of an administrative back office.
//!
//! The library turns a submitted credential into a signed session token,
//! turns that token back into an identity on each request, and turns an
//! identity into the permission strings and the navigation tree that the
//! identity is allowed to see.

pub mod auth;
pub mod claims;
pub mod clock;
pub mod config;
pub mod decryptor;
pub mod ids;
pub mod menu;
pub mod numbers;
pub mod password;
pub mod response;
pub mod system_role;
pub mod system_user;
pub mod text;
pub mod token;

pub use auth::LoginError;
pub use auth::LoginRequest;
pub use auth::LoginResponse;
pub use auth::StoredUserRecord;
pub use auth::UserInfo;
pub use config::AppConfig;
pub use decryptor::DecryptError;
pub use decryptor::RsaDecryptor;
pub use menu::MenuRow;
pub use menu::RouteForest;
pub use menu::RouteItem;
pub use password::BcryptVerifier;
pub use password::PasswordVerifier;
pub use response::ApiResponse;
pub use response::PageResult;
pub use token::Claims;
pub use token::TokenError;
pub use token::TokenService;
