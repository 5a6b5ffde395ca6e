//! Vaults: named secret stores. A vault holds its own string store and the
//! descriptor from which its backing store can be found again.
use vstd::prelude::*;

use crate::configuration::Configuration;

verus! {

/// The profile used when a descriptor names none.
pub fn default_profile() -> (r: String)
    ensures
        r@ == seq!['d', 'e', 'f', 'a', 'u', 'l', 't'],
{
    proof {
        reveal_strlit("default");
    }
    String::from_str("default")
}

/// Identity of a secret in a remote secret store: its id, its name, the version
/// last seen, and the credential profile to reach it with.
#[derive(Debug, Clone)]
pub struct AwsSecretInfo {
    id: String,
    name: String,
    version: String,
    profile_name: String,
}

impl AwsSecretInfo {
    pub fn new(id: String, name: String, version: String, profile_name: String) -> (r: Self)
        ensures
            r.id() == id@,
            r.name() == name@,
            r.version() == version@,
            r.profile() == profile_name@,
    {
        AwsSecretInfo { id, name, version, profile_name }
    }

    pub closed spec fn id(&self) -> Seq<char> {
        self.id@
    }

    pub closed spec fn name(&self) -> Seq<char> {
        self.name@
    }

    pub closed spec fn version(&self) -> Seq<char> {
        self.version@
    }

    pub closed spec fn profile(&self) -> Seq<char> {
        self.profile_name@
    }

    pub fn secret_id(&self) -> (r: &str)
        ensures
            r@ == self.id(),
    {
        self.id.as_str()
    }

    pub fn secret_name(&self) -> (r: &str)
        ensures
            r@ == self.name(),
    {
        self.name.as_str()
    }

    pub fn secret_version(&self) -> (r: &str)
        ensures
            r@ == self.version(),
    {
        self.version.as_str()
    }

    pub fn profile_name(&self) -> (r: &str)
        ensures
            r@ == self.profile(),
    {
        self.profile_name.as_str()
    }

    /// A copy of this descriptor.
    pub fn duplicate(&self) -> (r: Self)
        ensures
            r == *self,
    {
        AwsSecretInfo {
            id: self.id.clone(),
            name: self.name.clone(),
            version: self.version.clone(),
            profile_name: self.profile_name.clone(),
        }
    }

    /// The same descriptor at another version.
    fn with_version(self, version: String) -> (r: Self)
        ensures
            r.id() == self.id(),
            r.name() == self.name(),
            r.profile() == self.profile(),
            r.version() == version@,
    {
        AwsSecretInfo { version, ..self }
    }
}

/// The portable descriptor of a vault, one variant per kind of backing store.
#[derive(Debug, Clone)]
pub enum VaultKind {
    AwsSecretManager(AwsSecretInfo),
}

impl VaultKind {
    /// A copy of this descriptor.
    pub fn duplicate(&self) -> (r: Self)
        ensures
            r == *self,
    {
        match self {
            VaultKind::AwsSecretManager(info) => VaultKind::AwsSecretManager(info.duplicate()),
        }
    }

    /// The version token of the backing store, as last seen.
    pub open spec fn version(&self) -> Seq<char> {
        match self {
            VaultKind::AwsSecretManager(info) => info.version(),
        }
    }
}

/// A vault as held in memory: its descriptor and its own store of secrets.
#[derive(Debug)]
pub struct Vault {
    kind: VaultKind,
    store: Configuration<String>,
}

impl Vault {
    pub fn new(kind: VaultKind, store: Configuration<String>) -> (r: Self)
        requires
            store.wf(),
        ensures
            r.wf(),
            r.kind() == kind,
            r.store() == store,
    {
        Vault { kind, store }
    }

    pub closed spec fn wf(&self) -> bool {
        self.store.wf()
    }

    pub closed spec fn kind(&self) -> VaultKind {
        self.kind
    }

    pub closed spec fn store(&self) -> Configuration<String> {
        self.store
    }

    /// The vault's own store.
    pub fn get(&self) -> (r: &Configuration<String>)
        requires
            self.wf(),
        ensures
            *r == self.store(),
            r.wf(),
    {
        &self.store
    }

    /// The descriptor from which this vault can be found again.
    pub fn into_vault_kind(&self) -> (r: VaultKind)
        ensures
            r == self.kind(),
    {
        self.kind.duplicate()
    }

    /// Records that the backing store now holds this vault's contents at `version`.
    pub fn persisted(&mut self, version: String)
        ensures
            final(self).wf() == old(self).wf(),
            final(self).store()@ == old(self).store()@,
            final(self).kind().version() == version@,
            match (final(self).kind(), old(self).kind()) {
                (VaultKind::AwsSecretManager(a), VaultKind::AwsSecretManager(b)) => a.id() == b.id()
                    && a.name() == b.name() && a.profile() == b.profile(),
            },
    {
        let kind = self.kind.duplicate();
        let VaultKind::AwsSecretManager(info) = kind;
        self.kind = VaultKind::AwsSecretManager(info.with_version(version));
    }

    /// Writes `value` for `key` in the vault's store.
    pub fn set(&mut self, key: crate::key_ref::KeyRef, value: String) -> (r: Option<String>)
        requires
            old(self).wf(),
        ensures
            final(self).wf(),
            final(self).kind() == old(self).kind(),
            final(self).store()@ == crate::configuration::set_spec(
                old(self).store()@,
                key@.0,
                key@.1,
                value,
            ),
            final(self).store().ordered() == crate::configuration::ordered_set(
                old(self).store().ordered(),
                key@.0,
                key@.1,
                value,
            ),
            r == crate::configuration::entry_spec(old(self).store()@, key@.0, key@.1),
    {
        self.store.set(key, value)
    }

    /// Removes `key` from the vault's store.
    pub fn remove(&mut self, key: &crate::key_ref::KeyRef) -> (r: Option<String>)
        requires
            old(self).wf(),
        ensures
            final(self).wf(),
            final(self).kind() == old(self).kind(),
            final(self).store()@ == crate::configuration::remove_spec(
                old(self).store()@,
                key@.0,
                key@.1,
            ),
            final(self).store().ordered() == crate::configuration::ordered_remove(
                old(self).store().ordered(),
                key@.0,
                key@.1,
            ),
            r == crate::configuration::entry_spec(old(self).store()@, key@.0, key@.1),
    {
        self.store.remove(key)
    }
}

} // verus!
