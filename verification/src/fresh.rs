//! Fresh vault identifiers and creation timestamps, drawn from the
//! host, and the registration of new vaults with them.
use crate::codec::colon_free;
use crate::errors::StoreError;
use crate::world::World;
use crate::world::create_vault_with_id;
use crate::world::has_vault;
use crate::world::vaults_v;
use crate::world::world_wf;
use vstd::prelude::*;

verus! {

/// Relies on `uuid::Uuid::new_v4` and its `Display` form: a version-4
/// UUID printed in hyphenated lower-case hexadecimal is 36 characters of
/// hex digits and hyphens, so never empty and never holding a colon or a
/// slash. Nothing is assumed about which UUID comes out.
#[verifier::external_body]
fn fresh_vault_id() -> (r: String)
    ensures
        r@.len() == 36,
        colon_free(r@),
        forall|i: int| 0 <= i < r@.len() ==> r@[i] != '/',
{
    uuid::Uuid::new_v4().to_string()
}

/// Relies on `chrono::Utc::now().timestamp_millis` for the wall-clock
/// creation time. Nothing is assumed of the value.
#[verifier::external_body]
fn now_millis() -> (r: i64) {
    chrono::Utc::now().timestamp_millis()
}

/// Registers a new vault backed by `path`: generates a fresh identifier,
/// stamps the creation time, appends the descriptor and returns the
/// identifier. The path itself is left untouched — no file is created
/// inside it, the tree is derived lazily. The only failure is the
/// generated identifier colliding with a stored one, which can happen
/// only when the registry already holds an identifier shaped like a
/// generated one; a registry without such an identifier — the empty
/// registry in particular — is always extended.
pub fn create_vault_at_path(w: &mut World, name: &str, path: &str) -> (r: Result<
    String,
    StoreError,
>)
    requires
        world_wf(*old(w)),
    ensures
        world_wf(*final (w)),
        final (w).trees@ == old(w).trees@,
        final (w).contents@ == old(w).contents@,
        final (w).workspace_plugins@ == old(w).workspace_plugins@,
        final (w).plugin_records@ == old(w).plugin_records@,
        final (w).prefs@ == old(w).prefs@,
        final (w).docs@ == old(w).docs@,
        final (w).disk@ == old(w).disk@,
        match r {
            Result::Ok(id) => {
                &&& id@.len() > 0
                &&& colon_free(id@)
                &&& !has_vault(vaults_v(old(w).vaults@), id@)
                &&& vaults_v(final (w).vaults@).len() == vaults_v(old(w).vaults@).len() + 1
                &&& vaults_v(final (w).vaults@).drop_last() == vaults_v(old(w).vaults@)
                &&& vaults_v(final (w).vaults@).last().id == id@
                &&& vaults_v(final (w).vaults@).last().name == name@
                &&& vaults_v(final (w).vaults@).last().path == Option::Some(path@)
            },
            Result::Err(e) => e == StoreError::DuplicateId && *final (w) == *old(w) && (exists|
                i: int,
            |
                0 <= i < vaults_v(old(w).vaults@).len() && (#[trigger] vaults_v(
                    old(w).vaults@,
                )[i]).id.len() == 36 && colon_free(vaults_v(old(w).vaults@)[i].id)),
        },
{
    let id = fresh_vault_id();
    let stamp = now_millis();
    let ghost idv = id@;
    let r = create_vault_with_id(w, id, name, path, stamp);
    proof {
        if r is Ok {
            assert(vaults_v(final (w).vaults@).drop_last() =~= vaults_v(old(w).vaults@));
        } else {
            let vs = vaults_v(old(w).vaults@);
            assert(has_vault(vs, idv));
            let i = choose|i: int| 0 <= i < vs.len() && (#[trigger] vs[i]).id == idv;
            assert(vs[i].id.len() == 36 && colon_free(vs[i].id));
        }
    }
    r
}

} // verus!
