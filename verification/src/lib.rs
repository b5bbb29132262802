pub mod text;
pub mod atom;
pub mod backup;
pub mod db;
pub mod env;
pub mod export;
pub mod http;
pub mod ics;
pub mod limits;
pub mod notes;
pub mod json;
pub mod json_roundtrip;
pub mod landing;
pub mod rrule;
pub mod rrule_stable;
pub mod seal;
pub mod server;
pub mod sha256;
pub mod time;
pub mod todos;
pub mod tz;
pub mod util;
