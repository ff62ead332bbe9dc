//! The key registry configuration: the named owners and, for each, where
//! its wallet and account key files live.
//!
//! Reading the configuration file and loading key material are the
//! caller's concern; this is the explicit configuration object handed to
//! whichever component needs the lookups.

use vstd::prelude::*;
use crate::bytestr::{bytes_eq, lemma_encode_utf8_injective};
use crate::error::SampleError;

verus! {

/// The owner name every registry is expected to hold for the fee
/// collector.
pub const SERVICE_OWNER: &'static str = "Service";

/// The entry name of an owner's wallet key file.
pub const WALLET: &'static str = "wallet";

/// The entry name of an owner's account key file.
pub const ACCOUNT: &'static str = "account";

/// Index of the first occurrence of `x` in `s`, or -1.
pub open spec fn spec_first_index(s: Seq<Seq<char>>, x: Seq<char>) -> int
    decreases s.len(),
{
    if s.len() == 0 {
        -1
    } else if s[0] == x {
        0
    } else {
        let r = spec_first_index(s.drop_first(), x);
        if r < 0 {
            -1
        } else {
            r + 1
        }
    }
}

pub proof fn lemma_first_index_is(s: Seq<Seq<char>>, x: Seq<char>, i: int)
    requires
        0 <= i < s.len(),
        s[i] == x,
        forall|j: int| 0 <= j < i ==> s[j] != x,
    ensures
        spec_first_index(s, x) == i,
    decreases i,
{
    if i > 0 {
        assert(forall|j: int| 0 <= j < i - 1 ==> s.drop_first()[j] == s[j + 1]);
        lemma_first_index_is(s.drop_first(), x, i - 1);
    }
}

pub proof fn lemma_first_index_none(s: Seq<Seq<char>>, x: Seq<char>)
    requires
        forall|j: int| 0 <= j < s.len() ==> s[j] != x,
    ensures
        spec_first_index(s, x) == -1,
    decreases s.len(),
{
    if s.len() > 0 {
        lemma_first_index_none(s.drop_first(), x);
    }
}

/// The names of a path list, in order.
pub open spec fn spec_entry_names(entries: Seq<(Seq<char>, Seq<char>)>) -> Seq<Seq<char>> {
    entries.map_values(|q: (Seq<char>, Seq<char>)| q.0)
}

/// The path stored under `key`, if any (first occurrence).
pub open spec fn spec_assoc(entries: Seq<(Seq<char>, Seq<char>)>, key: Seq<char>) -> Option<
    Seq<char>,
> {
    let idx = spec_first_index(spec_entry_names(entries), key);
    if idx < 0 {
        Option::None
    } else {
        Option::Some(entries[idx].1)
    }
}

/// The character-level form of one registry row.
pub open spec fn spec_row_view(p: (String, Vec<(String, String)>)) -> (
    Seq<char>,
    Seq<(Seq<char>, Seq<char>)>,
) {
    (p.0@, p.1@.map_values(|q: (String, String)| (q.0@, q.1@)))
}

/// The character-level form of a whole registry.
pub open spec fn spec_registry_view(v: Seq<(String, Vec<(String, String)>)>) -> Seq<
    (Seq<char>, Seq<(Seq<char>, Seq<char>)>),
> {
    v.map_values(|p: (String, Vec<(String, String)>)| spec_row_view(p))
}

/// The owner names of a registry, in order.
pub open spec fn spec_owner_names(reg: Seq<(Seq<char>, Seq<(Seq<char>, Seq<char>)>)>) -> Seq<
    Seq<char>,
> {
    reg.map_values(|p: (Seq<char>, Seq<(Seq<char>, Seq<char>)>)| p.0)
}

/// The path list of the first row named `name`, if any.
pub open spec fn spec_owner_entry(
    reg: Seq<(Seq<char>, Seq<(Seq<char>, Seq<char>)>)>,
    name: Seq<char>,
) -> Option<Seq<(Seq<char>, Seq<char>)>> {
    let idx = spec_first_index(spec_owner_names(reg), name);
    if idx < 0 {
        Option::None
    } else {
        Option::Some(reg[idx].1)
    }
}

/// The users and their keypair key paths, as the configuration file
/// describes them: a version string and, per owner name, the named key
/// file paths.
#[derive(Debug, PartialEq)]
pub struct KeysYamlDB {
    version: String,
    registry: Vec<(String, Vec<(String, String)>)>,
}

impl KeysYamlDB {
    pub closed spec fn version_model(&self) -> Seq<char> {
        self.version@
    }

    pub closed spec fn registry_model(&self) -> Seq<(Seq<char>, Seq<(Seq<char>, Seq<char>)>)> {
        spec_registry_view(self.registry@)
    }

    /// Builds the configuration object from already-loaded data.
    pub fn new(version: String, registry: Vec<(String, Vec<(String, String)>)>) -> (r: Self)
        ensures
            r.version_model() == version@,
            r.registry_model() == spec_registry_view(registry@),
    {
        KeysYamlDB { version, registry }
    }

    /// Returns the configuration file map.
    pub fn registry(&self) -> (r: &Vec<(String, Vec<(String, String)>)>)
        ensures
            spec_registry_view(r@) == self.registry_model(),
    {
        &self.registry
    }

    /// Returns the configuration file version.
    pub fn version(&self) -> (r: &String)
        ensures
            r@ == self.version_model(),
    {
        &self.version
    }

    /// Returns the owner names, in registry order.
    pub fn key_owners(&self) -> (r: Vec<String>)
        ensures
            r@.map_values(|s: String| s@) == spec_owner_names(self.registry_model()),
    {
        let n = self.registry.len();
        let mut result = Vec::<String>::new();
        let mut i: usize = 0;
        while i < n
            invariant
                i <= n,
                n == self.registry@.len(),
                result@.len() == i,
                forall|j: int|
                    0 <= j < i ==> (#[trigger] result@[j])@ == self.registry@[j].0@,
            decreases n - i,
        {
            result.push(self.registry[i].0.clone());
            i = i + 1;
        }
        proof {
            assert(result@.map_values(|s: String| s@) =~= spec_owner_names(self.registry_model()));
        }
        result
    }

    /// Returns the owner names with the service owner's first occurrence
    /// taken out.  The registry must name the service owner.
    pub fn non_service_key_owners(&self) -> (r: Vec<String>)
        requires
            spec_first_index(spec_owner_names(self.registry_model()), SERVICE_OWNER@) >= 0,
        ensures
            r@.map_values(|s: String| s@) == spec_owner_names(self.registry_model()).remove(
                spec_first_index(spec_owner_names(self.registry_model()), SERVICE_OWNER@),
            ),
    {
        let ghost names = spec_owner_names(self.registry_model());
        let mut all_owners = self.key_owners();
        let n = all_owners.len();
        let mut i: usize = 0;
        while i < n
            invariant
                i <= n,
                n == all_owners@.len(),
                names == spec_owner_names(self.registry_model()),
                all_owners@.map_values(|s: String| s@) == names,
                forall|j: int| 0 <= j < i ==> names[j] != SERVICE_OWNER@,
                spec_first_index(names, SERVICE_OWNER@) >= 0,
            decreases n - i,
        {
            let hit = bytes_eq(all_owners[i].as_str().as_bytes(), SERVICE_OWNER.as_bytes());
            proof {
                if hit {
                    lemma_encode_utf8_injective(all_owners@[i as int]@, SERVICE_OWNER@);
                    assert(names[i as int] == SERVICE_OWNER@);
                    lemma_first_index_is(names, SERVICE_OWNER@, i as int);
                } else {
                    assert(names[i as int] != SERVICE_OWNER@);
                }
            }
            if hit {
                let ghost prev = all_owners@;
                all_owners.remove(i);
                proof {
                    assert(all_owners@ == prev.remove(i as int));
                    assert forall|j: int|
                        0 <= j < all_owners@.len() implies (#[trigger] all_owners@[j])@
                        == names.remove(i as int)[j] by {
                        if j < i {
                            assert(all_owners@[j] == prev[j]);
                            assert(prev[j]@ == prev.map_values(|s: String| s@)[j]);
                        } else {
                            assert(all_owners@[j] == prev[j + 1]);
                            assert(prev[j + 1]@ == prev.map_values(|s: String| s@)[j + 1]);
                        }
                    }
                    assert(all_owners@.map_values(|s: String| s@) =~= names.remove(i as int));
                }
                return all_owners;
            }
            i = i + 1;
        }
        proof {
            lemma_first_index_none(names, SERVICE_OWNER@);
        }
        all_owners
    }

    /// Returns the wallet and account key paths recorded for `name`, or
    /// `UnknownError` when the registry lacks the owner or either path.
    pub fn wallet_and_account(&self, name: &str) -> (r: Result<(String, String), SampleError>)
        ensures
            match spec_owner_entry(self.registry_model(), name@) {
                Option::None => r == Err::<(String, String), SampleError>(SampleError::UnknownError),
                Option::Some(entries) => match (
                    spec_assoc(entries, WALLET@),
                    spec_assoc(entries, ACCOUNT@),
                ) {
                    (Option::Some(w), Option::Some(a)) => r matches Ok(p) && p.0@ == w && p.1@ == a,
                    _ => r == Err::<(String, String), SampleError>(SampleError::UnknownError),
                },
            },
    {
        let ghost reg = self.registry_model();
        let n = self.registry.len();
        let mut i: usize = 0;
        while i < n
            invariant
                i <= n,
                n == self.registry@.len(),
                reg == self.registry_model(),
                forall|j: int| 0 <= j < i ==> spec_owner_names(reg)[j] != name@,
            decreases n - i,
        {
            let hit = bytes_eq(self.registry[i].0.as_str().as_bytes(), name.as_bytes());
            proof {
                if hit {
                    lemma_encode_utf8_injective(self.registry@[i as int].0@, name@);
                    lemma_first_index_is(spec_owner_names(reg), name@, i as int);
                } else {
                    assert(spec_owner_names(reg)[i as int] != name@);
                }
            }
            if hit {
                let wallet = Self::path_of(&self.registry[i].1, WALLET);
                let account = Self::path_of(&self.registry[i].1, ACCOUNT);
                match (wallet, account) {
                    (Option::Some(w), Option::Some(a)) => {
                        return Ok((w, a));
                    },
                    _ => {
                        return Err(SampleError::UnknownError);
                    },
                }
            }
            i = i + 1;
        }
        proof {
            lemma_first_index_none(spec_owner_names(reg), name@);
        }
        Err(SampleError::UnknownError)
    }

    /// The path stored under `key` in one owner's path list.
    fn path_of(entries: &Vec<(String, String)>, key: &str) -> (r: Option<String>)
        ensures
            match spec_assoc(
                entries@.map_values(|q: (String, String)| (q.0@, q.1@)),
                key@,
            ) {
                Option::None => r is None,
                Option::Some(p) => r matches Some(s) && s@ == p,
            },
    {
        let ghost model = entries@.map_values(|q: (String, String)| (q.0@, q.1@));
        let n = entries.len();
        let mut i: usize = 0;
        while i < n
            invariant
                i <= n,
                n == entries@.len(),
                model == entries@.map_values(|q: (String, String)| (q.0@, q.1@)),
                forall|j: int| 0 <= j < i ==> spec_entry_names(model)[j] != key@,
            decreases n - i,
        {
            let hit = bytes_eq(entries[i].0.as_str().as_bytes(), key.as_bytes());
            proof {
                if hit {
                    lemma_encode_utf8_injective(entries@[i as int].0@, key@);
                    lemma_first_index_is(spec_entry_names(model), key@, i as int);
                } else {
                    assert(spec_entry_names(model)[i as int] != key@);
                }
            }
            if hit {
                return Some(entries[i].1.clone());
            }
            i = i + 1;
        }
        proof {
            lemma_first_index_none(spec_entry_names(model), key@);
        }
        None
    }
}

} // verus!
