//! The list of vaults (`vaults.json`: ids, names, directories and when each
//! was last opened; never a secret). Reading and writing the file is the
//! caller's.

use vstd::prelude::*;
use crate::text::{str_eq, trim, trim_str};
use crate::vault::{sanitized_id, sanitize_vault_id};

verus! {

/// An entry of the vault list.
pub struct VaultInfo {
    pub id: String,
    pub name: String,
    pub path: String,
    pub last_opened: String,
}

/// What goes wrong with the vault list.
#[derive(Debug, Clone, Copy, PartialEq, Eq, Structural)]
pub enum VaultsError {
    /// The name is blank.
    EmptyName,
    /// No vault has this id.
    NotFound,
    /// The vault is the one in use.
    ActiveVault,
}

impl VaultsError {
    pub open spec fn spec_message(&self) -> Seq<char> {
        match self {
            VaultsError::EmptyName => "Vault name cannot be empty"@,
            VaultsError::NotFound => "Vault not found"@,
            VaultsError::ActiveVault => "Cannot delete the active vault"@,
        }
    }

    /// The message shown to the user.
    pub fn message(&self) -> (s: String)
        ensures
            s@ == self.spec_message(),
    {
        match self {
            VaultsError::EmptyName => String::from_str("Vault name cannot be empty"),
            VaultsError::NotFound => String::from_str("Vault not found"),
            VaultsError::ActiveVault => String::from_str("Cannot delete the active vault"),
        }
    }
}

/// Whether an entry has id `id`.
pub open spec fn listed(list: Seq<VaultInfo>, id: Seq<char>) -> bool {
    exists|k: int| 0 <= k < list.len() && (#[trigger] list[k]).id@ == id
}

/// Whether some entry of `list` has id `id`.
fn is_listed(list: &Vec<VaultInfo>, id: &str) -> (b: bool)
    ensures
        b == listed(list@, id@),
{
    let mut k: usize = 0;
    while k < list.len()
        invariant
            k <= list@.len(),
            forall|t: int| 0 <= t < k ==> (#[trigger] list@[t]).id@ != id@,
        decreases list@.len() - k,
    {
        if str_eq(list[k].id.as_str(), id) {
            return true;
        }
        k = k + 1;
    }
    false
}

/// Adds vault `id` named `name` (its directory is its id), opened `now`,
/// unless an entry with that id is there already. Says whether it added.
pub fn register_vault(list: &mut Vec<VaultInfo>, id: &str, name: &str, now: &str) -> (added: bool)
    ensures
        added == !listed(old(list)@, id@),
        !added ==> final(list)@ == old(list)@,
        added ==> final(list)@.drop_last() == old(list)@ && final(list)@.len() == old(list)@.len() + 1 && {
            let v = final(list)@.last();
            v.id@ == id@ && v.name@ == name@ && v.path@ == id@ && v.last_opened@ == now@
        },
{
    if is_listed(list, id) {
        return false;
    }
    list.push(VaultInfo { id: id.to_string(), name: name.to_string(), path: id.to_string(), last_opened: now.to_string() });
    assert(list@.drop_last() =~= old(list)@);
    true
}

/// Registering a vault twice is the same as registering it once.
pub proof fn lemma_register_idempotent(list: Seq<VaultInfo>, id: Seq<char>, v: VaultInfo)
    requires
        v.id@ == id,
    ensures
        listed(list.push(v), id),
{
    assert(list.push(v)[list.len() as int] == v);
}

/// A copy of an entry.
pub fn clone_info(v: &VaultInfo) -> (r: VaultInfo)
    ensures
        r == *v,
{
    VaultInfo { id: v.id.clone(), name: v.name.clone(), path: v.path.clone(), last_opened: v.last_opened.clone() }
}

/// Sets the last-opened time of every entry with id `id` to `now`; says
/// whether there was one.
pub fn touch_last_opened(list: &mut Vec<VaultInfo>, id: &str, now: &str) -> (changed: bool)
    ensures
        changed == listed(old(list)@, id@),
        final(list)@.len() == old(list)@.len(),
        forall|k: int| 0 <= k < old(list)@.len() ==> {
            let o = old(list)@[k];
            let v = #[trigger] final(list)@[k];
            if o.id@ == id@ {
                v.id == o.id && v.name == o.name && v.path == o.path && v.last_opened@ == now@
            } else {
                v == o
            }
        },
{
    let n = list.len();
    let mut changed = false;
    let mut k: usize = 0;
    while k < n
        invariant
            k <= n == old(list)@.len() == list@.len(),
            changed == exists|t: int| 0 <= t < k && (#[trigger] old(list)@[t]).id@ == id@,
            forall|t: int| 0 <= t < k ==> {
                let o = old(list)@[t];
                let v = #[trigger] list@[t];
                if o.id@ == id@ {
                    v.id == o.id && v.name == o.name && v.path == o.path && v.last_opened@ == now@
                } else {
                    v == o
                }
            },
            forall|t: int| k <= t < n ==> #[trigger] list@[t] == old(list)@[t],
        decreases n - k,
    {
        if str_eq(list[k].id.as_str(), id) {
            let o = clone_info(&list[k]);
            list.set(k, VaultInfo { id: o.id, name: o.name, path: o.path, last_opened: now.to_string() });
            changed = true;
        }
        k = k + 1;
    }
    changed
}

/// Renames vault `vault_id` (made safe by `sanitize_vault_id`) to
/// `new_name` trimmed: `EmptyName` for a blank name, `NotFound` when no
/// entry has that id; otherwise every entry with the id gets the name.
pub fn rename_vault(list: &mut Vec<VaultInfo>, vault_id: &str, new_name: &str) -> (r: Result<(), VaultsError>)
    ensures
        trim(new_name@).len() == 0 ==> r == Err::<(), VaultsError>(VaultsError::EmptyName) && final(list)@ == old(list)@,
        trim(new_name@).len() > 0 && !listed(old(list)@, sanitized_id(vault_id@)) ==> r == Err::<(), VaultsError>(
            VaultsError::NotFound,
        ) && final(list)@ == old(list)@,
        trim(new_name@).len() > 0 && listed(old(list)@, sanitized_id(vault_id@)) ==> {
            &&& r is Ok
            &&& final(list)@.len() == old(list)@.len()
            &&& forall|k: int| 0 <= k < old(list)@.len() ==> {
                let o = old(list)@[k];
                let v = #[trigger] final(list)@[k];
                if o.id@ == sanitized_id(vault_id@) {
                    v.id == o.id && v.path == o.path && v.last_opened == o.last_opened && v.name@ == trim(new_name@)
                } else {
                    v == o
                }
            }
        },
{
    let id = sanitize_vault_id(vault_id);
    let name = trim_str(new_name);
    if name.as_str().is_empty() {
        return Err(VaultsError::EmptyName);
    }
    if !is_listed(list, id.as_str()) {
        return Err(VaultsError::NotFound);
    }
    let n = list.len();
    let mut k: usize = 0;
    while k < n
        invariant
            k <= n == old(list)@.len() == list@.len(),
            id@ == sanitized_id(vault_id@),
            name@ == trim(new_name@),
            forall|t: int| 0 <= t < k ==> {
                let o = old(list)@[t];
                let v = #[trigger] list@[t];
                if o.id@ == sanitized_id(vault_id@) {
                    v.id == o.id && v.path == o.path && v.last_opened == o.last_opened && v.name@ == trim(new_name@)
                } else {
                    v == o
                }
            },
            forall|t: int| k <= t < n ==> #[trigger] list@[t] == old(list)@[t],
        decreases n - k,
    {
        if str_eq(list[k].id.as_str(), id.as_str()) {
            let o = clone_info(&list[k]);
            list.set(k, VaultInfo { id: o.id, name: name.clone(), path: o.path, last_opened: o.last_opened });
        }
        k = k + 1;
    }
    Ok(())
}

/// The id of the vault to delete (`vault_id` made safe), unless it is the
/// active vault (`ActiveVault`).
pub fn check_deletable(vault_id: &str, active_id: &str) -> (r: Result<String, VaultsError>)
    ensures
        sanitized_id(vault_id@) == sanitized_id(active_id@) ==> r == Err::<String, VaultsError>(VaultsError::ActiveVault),
        sanitized_id(vault_id@) != sanitized_id(active_id@) ==> (r matches Ok(id) && id@ == sanitized_id(vault_id@)),
{
    let id = sanitize_vault_id(vault_id);
    let active = sanitize_vault_id(active_id);
    if str_eq(id.as_str(), active.as_str()) {
        return Err(VaultsError::ActiveVault);
    }
    Ok(id)
}

/// Drops the entries with id `id`.
pub fn remove_vault_entry(list: &mut Vec<VaultInfo>, id: &str)
    ensures
        final(list)@ == old(list)@.filter(|v: VaultInfo| v.id@ != id@),
{
    let ghost orig = list@;
    let mut kept: Vec<VaultInfo> = Vec::new();
    let n = list.len();
    let mut i: usize = 0;
    while i < n
        invariant
            i <= n == orig.len(),
            list@ == orig,
            kept@ == orig.subrange(0, i as int).filter(|v: VaultInfo| v.id@ != id@),
        decreases n - i,
    {
        proof {
            reveal(Seq::filter);
            assert(orig.subrange(0, i + 1).drop_last() =~= orig.subrange(0, i as int));
        }
        if !str_eq(list[i].id.as_str(), id) {
            kept.push(clone_info(&list[i]));
        }
        i = i + 1;
    }
    assert(orig.subrange(0, n as int) =~= orig);
    *list = kept;
}

/// The name of a new vault: `name` trimmed; `EmptyName` when blank.
pub fn new_vault_name(name: &str) -> (r: Result<String, VaultsError>)
    ensures
        trim(name@).len() == 0 ==> r == Err::<String, VaultsError>(VaultsError::EmptyName),
        trim(name@).len() > 0 ==> (r matches Ok(n) && n@ == trim(name@)),
{
    let n = trim_str(name);
    if n.as_str().is_empty() {
        return Err(VaultsError::EmptyName);
    }
    Ok(n)
}

/// The name the first vault is registered under: `Personal` for the
/// `default` vault, its id otherwise.
pub fn first_vault_name(id: &str) -> (r: String)
    ensures
        id@ == "default"@ ==> r@ == "Personal"@,
        id@ != "default"@ ==> r@ == id@,
{
    if str_eq(id, "default") {
        String::from_str("Personal")
    } else {
        id.to_string()
    }
}

} // verus!
