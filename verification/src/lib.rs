//! A change-triggered command runner core: glob patterns are compiled into
//! path matchers, change notifications are filtered and debounced per rule,
//! and the decision logic that arms timers and extends watch coverage is
//! verified.

pub mod command;
pub mod debounce;
pub mod dispatch;
pub mod event;
pub mod glob;
pub mod glob_watcher;
pub mod paths;
pub mod views;
