use vstd::prelude::*;
use vstd::string::StringExecFns;

use crate::error::Error;

verus! {

/// Display preferences of one identity: the sort key, the sort direction and
/// five column visibility toggles. Created alongside the identity, mutated
/// only by its owner.
#[derive(Debug)]
pub struct Config {
    pub user_id: u128,
    pub sorted: Option<String>,
    pub ascending: bool,
    pub created_at: bool,
    pub edited_at: bool,
    pub owned_by: bool,
    pub edited_by: bool,
    pub filtered: bool,
}

/// The mathematical value of a `Config`.
pub struct ConfigView {
    pub user_id: u128,
    pub sorted: Option<Seq<char>>,
    pub ascending: bool,
    pub created_at: bool,
    pub edited_at: bool,
    pub owned_by: bool,
    pub edited_by: bool,
    pub filtered: bool,
}

impl View for Config {
    type V = ConfigView;

    open spec fn view(&self) -> ConfigView {
        ConfigView {
            user_id: self.user_id,
            sorted: match self.sorted {
                Some(s) => Some(s@),
                None => None,
            },
            ascending: self.ascending,
            created_at: self.created_at,
            edited_at: self.edited_at,
            owned_by: self.owned_by,
            edited_by: self.edited_by,
            filtered: self.filtered,
        }
    }
}

impl Config {
    /// A field-for-field copy.
    pub fn duplicate(&self) -> (r: Config)
        ensures
            r@ == self@,
    {
        Config {
            user_id: self.user_id,
            sorted: match &self.sorted {
                Some(s) => Some(s.clone()),
                None => None,
            },
            ascending: self.ascending,
            created_at: self.created_at,
            edited_at: self.edited_at,
            owned_by: self.owned_by,
            edited_by: self.edited_by,
            filtered: self.filtered,
        }
    }
}

/// The row a fresh registration starts from: sorted by name by default (no
/// explicit sort key), ascending, every column shown, no filter.
pub open spec fn default_config(user_id: u128) -> ConfigView {
    ConfigView {
        user_id,
        sorted: None,
        ascending: true,
        created_at: true,
        edited_at: true,
        owned_by: true,
        edited_by: true,
        filtered: false,
    }
}

/// One of the boolean display toggles.
#[derive(Clone, Copy, PartialEq, Eq, Structural, Debug)]
pub enum ConfigField {
    Ascending,
    CreatedAt,
    EditedAt,
    OwnedBy,
    EditedBy,
    Filtered,
}

/// `c` with the given toggle replaced.
pub open spec fn with_field(c: ConfigView, f: ConfigField, v: bool) -> ConfigView {
    ConfigView {
        user_id: c.user_id,
        sorted: c.sorted,
        ascending: if f is Ascending { v } else { c.ascending },
        created_at: if f is CreatedAt { v } else { c.created_at },
        edited_at: if f is EditedAt { v } else { c.edited_at },
        owned_by: if f is OwnedBy { v } else { c.owned_by },
        edited_by: if f is EditedBy { v } else { c.edited_by },
        filtered: if f is Filtered { v } else { c.filtered },
    }
}

/// The rows with the toggle of `id`'s row replaced.
pub open spec fn with_cfg_field(s: Seq<ConfigView>, id: u128, f: ConfigField, v: bool) -> Seq<
    ConfigView,
> {
    s.map_values(
        |c: ConfigView|
            if c.user_id == id {
                with_field(c, f, v)
            } else {
                c
            },
    )
}

/// The rows with the sort key of `id`'s row replaced.
pub open spec fn with_cfg_sorted(s: Seq<ConfigView>, id: u128, v: Option<Seq<char>>) -> Seq<
    ConfigView,
> {
    s.map_values(
        |c: ConfigView|
            if c.user_id == id {
                ConfigView {
                    user_id: c.user_id,
                    sorted: v,
                    ascending: c.ascending,
                    created_at: c.created_at,
                    edited_at: c.edited_at,
                    owned_by: c.owned_by,
                    edited_by: c.edited_by,
                    filtered: c.filtered,
                }
            } else {
                c
            },
    )
}

/// The display toggle a request's field name denotes, if any.
pub open spec fn parse_config_field(name: Seq<char>) -> Option<ConfigField> {
    if name == "ascending"@ {
        Some(ConfigField::Ascending)
    } else if name == "created_at"@ {
        Some(ConfigField::CreatedAt)
    } else if name == "owned_by"@ {
        Some(ConfigField::OwnedBy)
    } else if name == "edited_at"@ {
        Some(ConfigField::EditedAt)
    } else if name == "edited_by"@ {
        Some(ConfigField::EditedBy)
    } else if name == "filtered"@ {
        Some(ConfigField::Filtered)
    } else {
        None
    }
}

/// The first row with the given owner, scanning in creation order.
pub open spec fn find_cfg(s: Seq<ConfigView>, id: u128) -> Option<ConfigView>
    decreases s.len(),
{
    if s.len() == 0 {
        None
    } else if s[0].user_id == id {
        Some(s[0])
    } else {
        find_cfg(s.drop_first(), id)
    }
}

/// The preference table: one row per identity.
pub struct ConfigStore {
    configs: Vec<Config>,
}

impl View for ConfigStore {
    type V = Seq<ConfigView>;

    closed spec fn view(&self) -> Seq<ConfigView> {
        self.configs@.map_values(|c: Config| c@)
    }
}

impl ConfigStore {
    /// Each identity has at most one row.
    pub open spec fn wf(&self) -> bool {
        forall|j: int, k: int|
            0 <= j < k < self@.len() ==> (#[trigger] self@[j].user_id) != (
            #[trigger] self@[k].user_id)
    }

    pub fn new() -> (r: ConfigStore)
        ensures
            r@ =~= Seq::<ConfigView>::empty(),
            r.wf(),
    {
        let r = ConfigStore { configs: Vec::new() };
        proof {
            assert(r@ =~= Seq::<ConfigView>::empty());
        }
        r
    }

    fn find_index(&self, user_id: u128) -> (r: Option<usize>)
        ensures
            r is Some <==> find_cfg(self@, user_id) is Some,
            r is Some ==> 0 <= r.unwrap() < self@.len() && self@[r.unwrap() as int].user_id
                == user_id && find_cfg(self@, user_id) == Some(self@[r.unwrap() as int]),
    {
        let n = self.configs.len();
        let mut k: usize = 0;
        proof {
            assert(self@.skip(0) =~= self@);
        }
        while k < n
            invariant
                n == self.configs@.len(),
                0 <= k <= n,
                find_cfg(self@, user_id) == find_cfg(self@.skip(k as int), user_id),
            decreases n - k,
        {
            proof {
                assert(self@.skip(k as int)[0] == self@[k as int]);
                assert(self@.skip(k as int).drop_first() =~= self@.skip(k as int + 1));
            }
            if self.configs[k].user_id == user_id {
                return Some(k);
            }
            k = k + 1;
        }
        proof {
            assert(self@.skip(n as int) =~= Seq::<ConfigView>::empty());
        }
        None
    }

    /// Creates the preference row for a fresh identity with the default
    /// values; a second row for the same identity is a storage-layer failure.
    pub fn init(&mut self, user_id: u128) -> (r: Result<(), Error>)
        requires
            old(self).wf(),
        ensures
            final(self).wf(),
            find_cfg(old(self)@, user_id) is Some ==> r is Err && r.unwrap_err() is Internal
                && final(self)@ == old(self)@,
            find_cfg(old(self)@, user_id) is None ==> r is Ok && final(self)@ =~= old(self)@.push(default_config(user_id)),
    {
        if self.find_index(user_id).is_some() {
            return Err(Error::Internal(String::from_str("Preference row already present")));
        }
        let cfg = Config {
            user_id,
            sorted: None,
            ascending: true,
            created_at: true,
            edited_at: true,
            owned_by: true,
            edited_by: true,
            filtered: false,
        };
        proof {
            assert(self@.push(cfg@) =~= self.configs@.push(cfg).map_values(|c: Config| c@));
            lemma_find_cfg_absent(self@, user_id);
        }
        self.configs.push(cfg);
        Ok(())
    }

    /// The preference row of the given identity; its absence is a
    /// storage-layer failure, as the row is created with the identity.
    pub fn get(&self, user_id: u128) -> (r: Result<Config, Error>)
        ensures
            r is Ok <==> find_cfg(self@, user_id) is Some,
            r is Ok ==> r.unwrap()@ == find_cfg(self@, user_id).unwrap(),
            r is Err ==> r.unwrap_err() is Internal,
    {
        match self.find_index(user_id) {
            Some(i) => Ok(self.configs[i].duplicate()),
            None => Err(Error::Internal(String::from_str("Preference row missing"))),
        }
    }

    /// Replaces one boolean toggle of the identity's row; a missing row
    /// leaves the store unchanged, as an update that matches no row does.
    pub fn update_field(&mut self, user_id: u128, field: ConfigField, value: bool)
        requires
            old(self).wf(),
        ensures
            final(self).wf(),
            final(self)@ =~= with_cfg_field(old(self)@, user_id, field, value),
    {
        let idx = self.find_index(user_id);
        let ghost prev = self@;
        if let Some(i) = idx {
            let c = &self.configs[i];
            let replacement = Config {
                user_id: c.user_id,
                sorted: match &c.sorted {
                    Some(s) => Some(s.clone()),
                    None => None,
                },
                ascending: if matches!(field, ConfigField::Ascending) { value } else { c.ascending },
                created_at: if matches!(field, ConfigField::CreatedAt) {
                    value
                } else {
                    c.created_at
                },
                edited_at: if matches!(field, ConfigField::EditedAt) { value } else { c.edited_at },
                owned_by: if matches!(field, ConfigField::OwnedBy) { value } else { c.owned_by },
                edited_by: if matches!(field, ConfigField::EditedBy) { value } else { c.edited_by },
                filtered: if matches!(field, ConfigField::Filtered) { value } else { c.filtered },
            };
            proof {
                assert(replacement@ == with_field(prev[i as int], field, value));
            }
            self.configs.set(i, replacement);
            proof {
                assert(self@ =~= prev.update(i as int, replacement@));
                assert forall|j: int| 0 <= j < self@.len() implies self@[j] == with_cfg_field(
                    prev,
                    user_id,
                    field,
                    value,
                )[j] by {
                    if j != i {
                        assert(prev[j].user_id != user_id);
                    }
                }
                assert(self@ =~= with_cfg_field(prev, user_id, field, value));
            }
        } else {
            proof {
                lemma_find_cfg_absent(prev, user_id);
                assert(self@ =~= with_cfg_field(prev, user_id, field, value));
            }
        }
    }

    /// Replaces the sort-direction toggle of the identity's row.
    pub fn update_ascending(&mut self, user_id: u128, value: bool)
        requires
            old(self).wf(),
        ensures
            final(self).wf(),
            final(self)@ =~= with_cfg_field(old(self)@, user_id, ConfigField::Ascending, value),
    {
        self.update_field(user_id, ConfigField::Ascending, value);
    }

    /// Replaces the creation-column toggle of the identity's row.
    pub fn update_created_at(&mut self, user_id: u128, value: bool)
        requires
            old(self).wf(),
        ensures
            final(self).wf(),
            final(self)@ =~= with_cfg_field(old(self)@, user_id, ConfigField::CreatedAt, value),
    {
        self.update_field(user_id, ConfigField::CreatedAt, value);
    }

    /// Replaces the edit-time-column toggle of the identity's row.
    pub fn update_edited_at(&mut self, user_id: u128, value: bool)
        requires
            old(self).wf(),
        ensures
            final(self).wf(),
            final(self)@ =~= with_cfg_field(old(self)@, user_id, ConfigField::EditedAt, value),
    {
        self.update_field(user_id, ConfigField::EditedAt, value);
    }

    /// Replaces the owner-column toggle of the identity's row.
    pub fn update_owned_by(&mut self, user_id: u128, value: bool)
        requires
            old(self).wf(),
        ensures
            final(self).wf(),
            final(self)@ =~= with_cfg_field(old(self)@, user_id, ConfigField::OwnedBy, value),
    {
        self.update_field(user_id, ConfigField::OwnedBy, value);
    }

    /// Replaces the editor-column toggle of the identity's row.
    pub fn update_edited_by(&mut self, user_id: u128, value: bool)
        requires
            old(self).wf(),
        ensures
            final(self).wf(),
            final(self)@ =~= with_cfg_field(old(self)@, user_id, ConfigField::EditedBy, value),
    {
        self.update_field(user_id, ConfigField::EditedBy, value);
    }

    /// Replaces the filter toggle of the identity's row.
    pub fn update_filtered(&mut self, user_id: u128, value: bool)
        requires
            old(self).wf(),
        ensures
            final(self).wf(),
            final(self)@ =~= with_cfg_field(old(self)@, user_id, ConfigField::Filtered, value),
    {
        self.update_field(user_id, ConfigField::Filtered, value);
    }

    /// Replaces the sort key of the identity's row; a missing row leaves the
    /// store unchanged.
    pub fn update_sorted(&mut self, user_id: u128, value: Option<String>)
        requires
            old(self).wf(),
        ensures
            final(self).wf(),
            final(self)@ =~= with_cfg_sorted(
                old(self)@,
                user_id,
                match value {
                    Some(s) => Some(s@),
                    None => None,
                },
            ),
    {
        let ghost v = match &value {
            Some(s) => Some(s@),
            None => None,
        };
        let idx = self.find_index(user_id);
        let ghost prev = self@;
        if let Some(i) = idx {
            let c = &self.configs[i];
            let replacement = Config {
                user_id: c.user_id,
                sorted: value,
                ascending: c.ascending,
                created_at: c.created_at,
                edited_at: c.edited_at,
                owned_by: c.owned_by,
                edited_by: c.edited_by,
                filtered: c.filtered,
            };
            self.configs.set(i, replacement);
            proof {
                assert(self@ =~= prev.update(i as int, replacement@));
                assert forall|j: int| 0 <= j < self@.len() implies self@[j] == with_cfg_sorted(
                    prev,
                    user_id,
                    v,
                )[j] by {
                    if j != i {
                        assert(prev[j].user_id != user_id);
                    }
                }
                assert(self@ =~= with_cfg_sorted(prev, user_id, v));
            }
        } else {
            proof {
                lemma_find_cfg_absent(prev, user_id);
                assert(self@ =~= with_cfg_sorted(prev, user_id, v));
            }
        }
    }

    /// Updates several parts of the row in one call: each given field is
    /// replaced, the others kept; an empty sort key clears it.
    pub fn update_config(
        &mut self,
        user_id: u128,
        sorted: Option<String>,
        ascending: Option<bool>,
        created_at: Option<bool>,
        edited_at: Option<bool>,
        owned_by: Option<bool>,
        edited_by: Option<bool>,
        filtered: Option<bool>,
    )
        requires
            old(self).wf(),
        ensures
            final(self).wf(),
            final(self)@ =~= apply_config_update(
                old(self)@,
                user_id,
                match sorted {
                    Some(s) => Some(s@),
                    None => None,
                },
                ascending,
                created_at,
                edited_at,
                owned_by,
                edited_by,
                filtered,
            ),
    {
        if let Some(s) = sorted {
            if s.as_str().is_empty() {
                self.update_sorted(user_id, None);
            } else {
                self.update_sorted(user_id, Some(s));
            }
        }
        if let Some(v) = ascending {
            self.update_field(user_id, ConfigField::Ascending, v);
        }
        if let Some(v) = created_at {
            self.update_field(user_id, ConfigField::CreatedAt, v);
        }
        if let Some(v) = edited_at {
            self.update_field(user_id, ConfigField::EditedAt, v);
        }
        if let Some(v) = owned_by {
            self.update_field(user_id, ConfigField::OwnedBy, v);
        }
        if let Some(v) = edited_by {
            self.update_field(user_id, ConfigField::EditedBy, v);
        }
        if let Some(v) = filtered {
            self.update_field(user_id, ConfigField::Filtered, v);
        }
    }
}

/// The combined effect of one row update: each given field replaced in turn,
/// with an empty sort key standing for no sort key at all.
pub open spec fn apply_config_update(
    s: Seq<ConfigView>,
    user_id: u128,
    sorted: Option<Seq<char>>,
    ascending: Option<bool>,
    created_at: Option<bool>,
    edited_at: Option<bool>,
    owned_by: Option<bool>,
    edited_by: Option<bool>,
    filtered: Option<bool>,
) -> Seq<ConfigView> {
    let s1 = match sorted {
        Some(v) => with_cfg_sorted(
            s,
            user_id,
            if v.len() == 0 {
                None
            } else {
                Some(v)
            },
        ),
        None => s,
    };
    let s2 = match ascending {
        Some(v) => with_cfg_field(s1, user_id, ConfigField::Ascending, v),
        None => s1,
    };
    let s3 = match created_at {
        Some(v) => with_cfg_field(s2, user_id, ConfigField::CreatedAt, v),
        None => s2,
    };
    let s4 = match edited_at {
        Some(v) => with_cfg_field(s3, user_id, ConfigField::EditedAt, v),
        None => s3,
    };
    let s5 = match owned_by {
        Some(v) => with_cfg_field(s4, user_id, ConfigField::OwnedBy, v),
        None => s4,
    };
    let s6 = match edited_by {
        Some(v) => with_cfg_field(s5, user_id, ConfigField::EditedBy, v),
        None => s5,
    };
    match filtered {
        Some(v) => with_cfg_field(s6, user_id, ConfigField::Filtered, v),
        None => s6,
    }
}

/// When no row of `s` belongs to `id`, finding reports nothing.
proof fn lemma_find_cfg_absent(s: Seq<ConfigView>, id: u128)
    ensures
        find_cfg(s, id) is None ==> forall|j: int| 0 <= j < s.len() ==> (#[trigger] s[j].user_id)
            != id,
        find_cfg(s, id) is None ==> with_cfg_sorted(s, id, None) =~= s,
        (forall|j: int| 0 <= j < s.len() ==> (#[trigger] s[j].user_id) != id) ==> find_cfg(s, id)
            is None,
    decreases s.len(),
{
    if s.len() > 0 {
        lemma_find_cfg_absent(s.drop_first(), id);
        assert forall|j: int| 0 <= j < s.len() && find_cfg(s, id) is None implies (
        #[trigger] s[j].user_id) != id by {
            if j > 0 {
                assert(s.drop_first()[j - 1] == s[j]);
            }
        }
        if forall|j: int| 0 <= j < s.len() ==> (#[trigger] s[j].user_id) != id {
            assert(s.drop_first()[0] == s[1] || s.len() == 1);
            assert forall|j: int| 0 <= j < s.drop_first().len() implies (
            #[trigger] s.drop_first()[j].user_id) != id by {
                assert(s.drop_first()[j] == s[j + 1]);
            }
        }
    }
}

} // verus!
