//! The access-control model: users, roles and the grants that say which
//! actions each role may take.
use vstd::prelude::*;

use crate::text::same_text;

verus! {

broadcast use vstd::string::group_string_axioms;

#[derive(Debug, Default)]
pub struct User {
    pub name: String,
    pub group: Option<Group>,
    pub id: u32,
}

/// The record made when a user is given a role.
#[derive(Debug)]
pub struct UserRole {
    pub id: String,
    pub token: Option<String>,
    pub role: Option<String>,
}

#[derive(Debug)]
pub struct Group {
    pub group_name: String,
    pub allowed_verbs: Vec<String>,
}

#[derive(Debug)]
pub struct Role {
    pub name: String,
    pub rule: Option<String>,
    pub data: Vec<String>,
    pub item_type: i64,
}

#[derive(Debug, Default)]
pub struct Actions {
    pub role: String,
}

/// What each role is granted: a map from a role's name to the names of the
/// actions it may take. No role appears twice.
#[derive(Debug)]
pub struct Grants {
    entries: Vec<(String, Vec<String>)>,
}

/// The map that a list of (role, actions) entries stands for; a later entry
/// for a role hides an earlier one.
pub open spec fn entries_map(entries: Seq<(Seq<char>, Seq<Seq<char>>)>) -> Map<
    Seq<char>,
    Seq<Seq<char>>,
>
    decreases entries.len(),
{
    if entries.len() == 0 {
        Map::empty()
    } else {
        entries_map(entries.drop_last()).insert(entries.last().0, entries.last().1)
    }
}

/// No role is named by two entries.
pub open spec fn distinct_roles(entries: Seq<(Seq<char>, Seq<Seq<char>>)>) -> bool {
    forall|i: int, j: int|
        0 <= i < entries.len() && 0 <= j < entries.len() && i != j ==> #[trigger] entries[i].0
            != #[trigger] entries[j].0
}

proof fn lemma_entries_map_dom(entries: Seq<(Seq<char>, Seq<Seq<char>>)>, k: Seq<char>)
    ensures
        entries_map(entries).contains_key(k) <==> exists|i: int|
            0 <= i < entries.len() && #[trigger] entries[i].0 == k,
    decreases entries.len(),
{
    if entries.len() > 0 {
        let init = entries.drop_last();
        lemma_entries_map_dom(init, k);
        if entries_map(entries).contains_key(k) && k != entries.last().0 {
            let i = choose|i: int| 0 <= i < init.len() && #[trigger] init[i].0 == k;
            assert(entries[i].0 == k);
        }
        if exists|i: int| 0 <= i < entries.len() && #[trigger] entries[i].0 == k {
            let i = choose|i: int| 0 <= i < entries.len() && #[trigger] entries[i].0 == k;
            if i < entries.len() - 1 {
                assert(init[i].0 == k);
            }
        }
    }
}

proof fn lemma_entries_map_at(entries: Seq<(Seq<char>, Seq<Seq<char>>)>, i: int)
    requires
        distinct_roles(entries),
        0 <= i < entries.len(),
    ensures
        entries_map(entries).contains_key(entries[i].0),
        entries_map(entries)[entries[i].0] == entries[i].1,
    decreases entries.len(),
{
    let init = entries.drop_last();
    if i < entries.len() - 1 {
        assert(init[i] == entries[i]);
        assert(distinct_roles(init));
        lemma_entries_map_at(init, i);
        assert(entries[i].0 != entries.last().0);
    }
}

proof fn lemma_entries_map_update(
    entries: Seq<(Seq<char>, Seq<Seq<char>>)>,
    j: int,
    v: Seq<Seq<char>>,
)
    requires
        distinct_roles(entries),
        0 <= j < entries.len(),
    ensures
        entries_map(entries.update(j, (entries[j].0, v))) == entries_map(entries).insert(
            entries[j].0,
            v,
        ),
    decreases entries.len(),
{
    let k = entries[j].0;
    let e2 = entries.update(j, (k, v));
    let init = entries.drop_last();
    if j == entries.len() - 1 {
        assert(e2.drop_last() =~= init);
        assert(!entries_map(init).contains_key(k)) by {
            lemma_entries_map_dom(init, k);
        }
        assert(entries_map(e2) =~= entries_map(entries).insert(k, v));
    } else {
        assert(distinct_roles(init));
        assert(init[j] == entries[j]);
        lemma_entries_map_update(init, j, v);
        assert(e2.drop_last() =~= init.update(j, (k, v)));
        assert(entries.last().0 != k);
        assert(entries_map(e2) =~= entries_map(entries).insert(k, v));
    }
}

impl Grants {
    /// The entries, each taken by its view.
    pub closed spec fn entries_view(&self) -> Seq<(Seq<char>, Seq<Seq<char>>)> {
        self.entries.deep_view()
    }

    #[verifier::type_invariant]
    closed spec fn no_role_twice(&self) -> bool {
        distinct_roles(self.entries_view())
    }

    /// The grants as a map from role to actions.
    pub closed spec fn view(&self) -> Map<Seq<char>, Seq<Seq<char>>> {
        entries_map(self.entries_view())
    }

    /// No role is granted anything.
    pub fn new() -> (g: Grants)
        ensures
            g.view() == Map::<Seq<char>, Seq<Seq<char>>>::empty(),
    {
        Grants { entries: Vec::new() }
    }

    /// Grants `role` exactly `actions`, in place of what it was granted before.
    pub fn insert(&mut self, role: String, actions: Vec<String>)
        ensures
            final(self).view() == old(self).view().insert(role@, actions.deep_view()),
    {
        proof {
            use_type_invariant(&*self);
        }
        let mut j: usize = 0;
        while j < self.entries.len()
            invariant
                j <= self.entries@.len(),
                distinct_roles(self.entries.deep_view()),
                self.entries.deep_view() == old(self).entries.deep_view(),
                forall|t: int| 0 <= t < j ==> self.entries@[t].0@ != role@,
            decreases self.entries@.len() - j,
        {
            if same_text(self.entries[j].0.as_str(), role.as_str()) {
                let ghost before = self.entries.deep_view();
                proof {
                    lemma_entries_map_update(before, j as int, actions.deep_view());
                }
                let key = self.entries[j].0.clone();
                let mut entries: Vec<(String, Vec<String>)> = Vec::new();
        std::mem::swap(&mut entries, &mut self.entries);
                entries.set(j, (key, actions));
                proof {
                    assert(entries.deep_view() =~= before.update(
                        j as int,
                        (before[j as int].0, actions.deep_view()),
                    ));
                }
                self.entries = entries;
                return ;
            }
            j = j + 1;
        }
        let ghost before = self.entries.deep_view();
        let mut entries: Vec<(String, Vec<String>)> = Vec::new();
        std::mem::swap(&mut entries, &mut self.entries);
        entries.push((role, actions));
        proof {
            assert(entries.deep_view().drop_last() =~= before);
            assert forall|i: int, k: int|
                0 <= i < entries.deep_view().len() && 0 <= k < entries.deep_view().len() && i
                    != k implies #[trigger] entries.deep_view()[i].0 != #[trigger] entries.deep_view()[k].0 by {
                if i < before.len() && k < before.len() {
                    assert(entries.deep_view()[i] == before[i]);
                    assert(entries.deep_view()[k] == before[k]);
                } else if i < before.len() {
                    assert(entries.deep_view()[i] == before[i]);
                } else {
                    assert(entries.deep_view()[k] == before[k]);
                }
            }
        }
        self.entries = entries;
    }

    /// Each role with the actions granted to it; no role appears twice, and
    /// the list stands for `view()`.
    pub fn entries(&self) -> (r: &Vec<(String, Vec<String>)>)
        ensures
            r.deep_view() == self.entries_view(),
            entries_map(r.deep_view()) == self.view(),
            distinct_roles(r.deep_view()),
    {
        proof {
            use_type_invariant(self);
        }
        &self.entries
    }

    /// The actions granted to `role`, or `None` when the role has no grant.
    pub fn get(&self, role: &str) -> (r: Option<&Vec<String>>)
        ensures
            match r {
                Some(actions) => self.view().contains_key(role@) && self.view()[role@]
                    == actions.deep_view(),
                None => !self.view().contains_key(role@),
            },
    {
        proof {
            use_type_invariant(self);
        }
        let mut j: usize = 0;
        while j < self.entries.len()
            invariant
                j <= self.entries@.len(),
                distinct_roles(self.entries.deep_view()),
                forall|t: int| 0 <= t < j ==> self.entries@[t].0@ != role@,
            decreases self.entries@.len() - j,
        {
            if same_text(self.entries[j].0.as_str(), role) {
                proof {
                    lemma_entries_map_at(self.entries.deep_view(), j as int);
                }
                return Some(&self.entries[j].1);
            }
            j = j + 1;
        }
        proof {
            lemma_entries_map_dom(self.entries.deep_view(), role@);
            if self.view().contains_key(role@) {
                let i = choose|i: int|
                    0 <= i < self.entries.deep_view().len() && #[trigger] self.entries.deep_view()[i].0
                        == role@;
                assert(self.entries@[i].0@ == role@);
            }
        }
        None
    }
}

/// Whether `items` holds `item`.
pub fn contains_text(items: &Vec<String>, item: &str) -> (r: bool)
    ensures
        r == items.deep_view().contains(item@),
{
    let mut j: usize = 0;
    while j < items.len()
        invariant
            j <= items@.len(),
            forall|t: int| 0 <= t < j ==> items@[t]@ != item@,
        decreases items@.len() - j,
    {
        if same_text(items[j].as_str(), item) {
            proof {
                assert(items.deep_view()[j as int] == item@);
            }
            return true;
        }
        j = j + 1;
    }
    proof {
        if items.deep_view().contains(item@) {
            let t = choose|t: int| 0 <= t < items.deep_view().len() && items.deep_view()[t] == item@;
            assert(items@[t]@ == item@);
        }
    }
    false
}

/// The role-based access rules: the known roles and permissions, and what
/// each role is granted.
#[derive(Debug)]
pub struct RBAC {
    pub roles: Vec<String>,
    pub permissions: Vec<String>,
    pub grants: Grants,
}

/// Whether a user with status `status` may take `action` under `grants`.
pub open spec fn access_granted(
    grants: Map<Seq<char>, Seq<Seq<char>>>,
    status: Seq<char>,
    action: Seq<char>,
) -> bool {
    grants.contains_key(status) && grants[status].contains(action)
}

/// Granting a role a list of actions replaces what that role was granted:
/// afterwards a user with that status may take exactly the granted actions,
/// and what users with any other status may take is unchanged.
pub proof fn law_grant_then_check(
    grants: Map<Seq<char>, Seq<Seq<char>>>,
    role: Seq<char>,
    actions: Seq<Seq<char>>,
    status: Seq<char>,
    action: Seq<char>,
)
    ensures
        access_granted(grants.insert(role, actions), status, action) == if status == role {
            actions.contains(action)
        } else {
            access_granted(grants, status, action)
        },
{
}

/// A user whose status is not a role with grants is refused every action.
pub proof fn law_unknown_status_refused(
    grants: Map<Seq<char>, Seq<Seq<char>>>,
    status: Seq<char>,
    action: Seq<char>,
)
    requires
        !grants.contains_key(status),
    ensures
        !access_granted(grants, status, action),
{
}

impl Default for Grants {
    /// No role is granted anything.
    fn default() -> (g: Grants)
        ensures
            g.view() == Map::<Seq<char>, Seq<Seq<char>>>::empty(),
    {
        Grants::new()
    }
}

impl Default for RBAC {
    /// No roles, no permissions, no grants.
    fn default() -> (r: RBAC)
        ensures
            r.roles@.len() == 0,
            r.permissions@.len() == 0,
            r.grants.view() == Map::<Seq<char>, Seq<Seq<char>>>::empty(),
    {
        RBAC { roles: Vec::new(), permissions: Vec::new(), grants: Grants::new() }
    }
}

impl RBAC {
    /// Whether the user `user_id`, whose status is `user_status`, may take
    /// `action`: only when `user_status` names a role that is granted `action`.
    pub fn check_access(
        &self,
        user_id: &'static str,
        user_status: &'static str,
        action: &'static str,
    ) -> (r: bool)
        ensures
            r == access_granted(self.grants.view(), user_status@, action@),
    {
        let actions = self.grants.get(user_status);
        let res = match actions {
            Some(x) => contains_text(x, action),
            None => false,
        };
        res
    }

    /// Token checks are not implemented: no token is accepted.
    pub fn check_token(token: &'static str) -> (r: bool)
        ensures
            !r,
    {
        false
    }

    /// The record that gives the user `user_id` the role `role` with `token`.
    pub fn add_user_roles(user_id: &'static str, token: &'static str, role: &'static str) -> (r:
        UserRole)
        ensures
            r.id@ == user_id@,
            r.token matches Some(t) && t@ == token@,
            r.role matches Some(x) && x@ == role@,
    {
        UserRole {
            id: user_id.to_string(),
            token: Some(token.to_string()),
            role: Some(role.to_string()),
        }
    }

    /// Permission checks by token are not implemented: nothing is allowed.
    pub fn is_allowed(token: &'static str) -> (r: bool)
        ensures
            !r,
    {
        false
    }
}

} // verus!
