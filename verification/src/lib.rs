//! Verified core of justgui: text normalization of terminal output, `.env`
//! editing, `just` command construction, recipe layout and session bookkeeping.
pub mod text;
pub mod termout;
pub mod envfile;
pub mod just_client;
pub mod layout;
pub mod theme;
pub mod sessions;
pub mod view;
