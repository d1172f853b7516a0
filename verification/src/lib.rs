pub mod bundle;
pub mod fallback;
pub mod resmgr;
pub mod syntax;
