use vstd::prelude::*;

pub mod clock;
pub mod config;
pub mod env_config;
pub mod reminders;
pub mod services;
pub mod supabase;
pub mod supabase_config;
pub mod text;
pub mod weburl;

verus! {

} // verus!
