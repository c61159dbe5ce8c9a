//! Connection profiles as they are listed and edited.
use vstd::prelude::*;

verus! {

/// A stored connection profile, as it is listed (without its password).
pub struct ConnectionProfileRow {
    pub id: i64,
    pub name: String,
    pub host: String,
    pub port: i64,
    pub username: String,
    pub auth_method: String,
    pub key_path: Option<String>,
}

/// The fields of a connection profile that is created or changed.
pub struct ProfileUpdate {
    pub name: String,
    pub host: String,
    pub port: i64,
    pub username: String,
    pub auth_method: String,
    pub password: Option<String>,
    pub key_path: Option<String>,
}

} // verus!
