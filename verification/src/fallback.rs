pub mod errors;
pub mod localization;
pub mod messages;
pub mod types;
pub mod value;
pub mod values;
