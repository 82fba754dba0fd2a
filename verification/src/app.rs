use vstd::prelude::*;

use crate::auth::AuthState;
use crate::db::Database;

verus! {

/// What every request handler sees: the photo database and the sign-in state.
pub struct AppState {
    pub db: Database,
    pub auth: AuthState,
}

} // verus!
