//! The values that the server is configured and run with.

use vstd::prelude::*;
use std::sync::Arc;
use std::sync::Mutex;

verus! {

/// Declares `std::sync::Mutex` so that it can stand in a field. Nothing is
/// known of what a lock holds.
#[verifier::external_type_specification]
#[verifier::external_body]
#[verifier::reject_recursive_types(T)]
pub struct ExMutex<T: ?Sized>(std::sync::Mutex<T>);

/// What the owner of the server knows of it: what it shares, on which port,
/// and whether it runs.
#[derive(Clone, Debug, PartialEq, Eq)]
pub struct ServerState {
    /// The shared roots, in the order in which they are tried.
    pub shared_folders: Vec<String>,
    /// The port on which the server listens.
    pub port: u16,
    /// Whether the server is running.
    pub is_running: bool,
}

/// What every request handler shares: the list of shared roots, behind a
/// lock.
///
/// Every clone shares the one list. Since any holder of a clone may change
/// the list at any time, nothing is stated of what a reader finds in it.
#[derive(Clone)]
pub struct AppState {
    pub shared_folders: Arc<Mutex<Vec<String>>>,
}

impl AppState {
    /// The state that shares `shared_folders`.
    pub fn new(shared_folders: Vec<String>) -> (state: AppState) {
        AppState { shared_folders: Arc::new(lock_around(shared_folders)) }
    }

    /// A copy of the shared roots as they stand now. The lock is held only
    /// while the list is copied, so that no lookup and no read of the
    /// filesystem ever waits on it.
    pub fn snapshot(&self) -> (roots: Vec<String>) {
        copy_out(&self.shared_folders)
    }
}

/// Calls `Mutex::new` to put a lock around `value`. Nothing is claimed of
/// the lock.
#[verifier::external_body]
fn lock_around(value: Vec<String>) -> (lock: Mutex<Vec<String>>) {
    Mutex::new(value)
}

/// Calls `Mutex::lock` and copies the list out while the lock is held; a
/// poisoned lock still yields its list. Nothing is claimed of the copy: what
/// the lock holds is whatever was last put there.
#[verifier::external_body]
fn copy_out(lock: &Mutex<Vec<String>>) -> (roots: Vec<String>) {
    match lock.lock() {
        Ok(guard) => guard.clone(),
        Err(poisoned) => poisoned.into_inner().clone(),
    }
}

} // verus!
