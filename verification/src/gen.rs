//! Planning a new token from an admin's form submission: the one computation
//! in token generation, turning relative validity hours into an absolute
//! deadline and a backend choice into its persisted tag.

use crate::ledger::CreateToken;
use crate::ledger::MAX_EXPIRE_HOURS;
use crate::ledger::MAX_INSTANT;
use crate::ledger::SECONDS_PER_HOUR;
use crate::store::StorageBackendType;
use vstd::prelude::*;

verus! {

/// An admin's request for a new upload token.
pub struct GenTokenForm {
    pub path: String,
    pub max_size_mib: Option<u64>,
    pub content_expires_after_hours: Option<u64>,
    pub token_valid_for_hour: u64,
    pub storage_backend: StorageBackendType,
}

/// The create request that a form submission means at instant `now`: the
/// upload window is `token_valid_for_hour` hours from now, exact in seconds.
pub fn plan_token(form: &GenTokenForm, now: u64) -> (ct: CreateToken)
    requires
        now <= MAX_INSTANT,
        form.token_valid_for_hour <= MAX_EXPIRE_HOURS,
    ensures
        ct.path == form.path,
        ct.max_size_mib == form.max_size_mib,
        ct.valid_until == now + form.token_valid_for_hour * SECONDS_PER_HOUR,
        ct.content_expires_after_hours == form.content_expires_after_hours,
        ct.backend_type@ == form.storage_backend.spec_tag(),
{
    proof {
        assert(form.token_valid_for_hour * SECONDS_PER_HOUR <= MAX_EXPIRE_HOURS
            * SECONDS_PER_HOUR) by (nonlinear_arith)
            requires
                form.token_valid_for_hour <= MAX_EXPIRE_HOURS,
        ;
    }
    let mut backend_type = String::new();
    backend_type.append(form.storage_backend.get_type());
    proof {
        assert(backend_type@ =~= form.storage_backend.spec_tag());
    }
    CreateToken {
        path: form.path.clone(),
        max_size_mib: form.max_size_mib,
        valid_until: now + form.token_valid_for_hour * SECONDS_PER_HOUR,
        content_expires_after_hours: form.content_expires_after_hours,
        backend_type,
    }
}

} // verus!
