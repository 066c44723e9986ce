//! The inventory as a loader hands it over: identities keyed by user name
//! and server groups keyed by group label, each an association list with
//! pairwise-distinct keys in insertion order.

use vstd::prelude::*;
use crate::text::str_eq;

verus! {

/// How a user authenticates, borrowed from an identity: by a key file, or
/// by password.
pub enum AuthMethod<'a> {
    Key(&'a str),
    Password,
}

/// A user together with an optional key file.
pub struct Identity {
    pub user: String,
    key: Option<String>,
}

impl Identity {
    /// The user name.
    pub closed spec fn spec_user(&self) -> Seq<char> {
        self.user@
    }

    /// The key file, if the identity has one.
    pub closed spec fn spec_key(&self) -> Option<Seq<char>> {
        match self.key {
            Option::Some(k) => Option::Some(k@),
            Option::None => Option::None,
        }
    }

    /// An identity for `user`, authenticating by `key` when one is given.
    pub fn new(user: String, key: Option<String>) -> (id: Identity)
        ensures
            id.spec_user() == user@,
            match key {
                Option::Some(k) => id.spec_key() == Option::Some(k@),
                Option::None => id.spec_key() is None,
            },
    {
        Identity { user, key }
    }

    /// The user name, for callers outside this module.
    pub fn user(&self) -> (r: &str)
        ensures
            r@ == self.spec_user(),
    {
        self.user.as_str()
    }

    /// The authentication method: the key file when there is one, password
    /// otherwise.
    pub fn method(&self) -> (m: AuthMethod)
        ensures
            match self.spec_key() {
                Option::Some(k) => m matches AuthMethod::Key(f) && f@ == k,
                Option::None => m is Password,
            },
    {
        match &self.key {
            Option::Some(k) => AuthMethod::Key(k.as_str()),
            Option::None => AuthMethod::Password,
        }
    }
}

/// One server of the inventory.
pub struct Server {
    pub name: String,
    pub hostname: String,
    pub user: String,
    pub port: u16,
    pub description: String,
}

/// The servers of one group.
pub struct ServerGroup {
    pub servers: Vec<Server>,
}

/// The position of the last server named `name`, or `-1` when none is.
pub open spec fn last_named(ss: Seq<Server>, name: Seq<char>) -> int
    decreases ss.len(),
{
    if ss.len() == 0 {
        -1
    } else if ss.last().name@ == name {
        ss.len() - 1
    } else {
        last_named(ss.drop_last(), name)
    }
}

/// `last_named` finds the last matching server, if any.
pub proof fn lemma_last_named(ss: Seq<Server>, name: Seq<char>)
    ensures
        -1 <= last_named(ss, name) < ss.len(),
        last_named(ss, name) >= 0 ==> ss[last_named(ss, name)].name@ == name,
        forall|j: int| last_named(ss, name) < j < ss.len() ==> (#[trigger] ss[j]).name@ != name,
    decreases ss.len(),
{
    if ss.len() > 0 && ss.last().name@ != name {
        lemma_last_named(ss.drop_last(), name);
        assert forall|j: int| last_named(ss, name) < j < ss.len() implies (#[trigger] ss[j]).name@
            != name by {
            if j < ss.len() - 1 {
                assert(ss.drop_last()[j] == ss[j]);
            }
        }
    }
}

/// The position of the last group holding a server named `name`, or `-1`.
pub open spec fn last_group_named(gs: Seq<(String, ServerGroup)>, name: Seq<char>) -> int
    decreases gs.len(),
{
    if gs.len() == 0 {
        -1
    } else if last_named(gs.last().1.servers@, name) >= 0 {
        gs.len() - 1
    } else {
        last_group_named(gs.drop_last(), name)
    }
}

/// `last_group_named` finds the last group with a match, if any.
pub proof fn lemma_last_group_named(gs: Seq<(String, ServerGroup)>, name: Seq<char>)
    ensures
        -1 <= last_group_named(gs, name) < gs.len(),
        last_group_named(gs, name) >= 0 ==> last_named(
            gs[last_group_named(gs, name)].1.servers@,
            name,
        ) >= 0,
        forall|g: int|
            last_group_named(gs, name) < g < gs.len() ==> last_named(
                (#[trigger] gs[g]).1.servers@,
                name,
            ) == -1,
    decreases gs.len(),
{
    if gs.len() > 0 {
        lemma_last_named(gs.last().1.servers@, name);
        if last_named(gs.last().1.servers@, name) < 0 {
            lemma_last_group_named(gs.drop_last(), name);
            assert forall|g: int| last_group_named(gs, name) < g < gs.len() implies last_named(
                (#[trigger] gs[g]).1.servers@,
                name,
            ) == -1 by {
                if g < gs.len() - 1 {
                    assert(gs.drop_last()[g] == gs[g]);
                }
            }
        }
    }
}

/// The position of the first pair keyed `key`, or the list's length.
pub open spec fn find_pair(ids: Seq<(String, Identity)>, key: Seq<char>) -> int
    decreases ids.len(),
{
    if ids.len() == 0 {
        0
    } else if ids[0].0@ == key {
        0
    } else {
        1 + find_pair(ids.drop_first(), key)
    }
}

/// `find_pair` finds the first pair carrying `key`, if any.
pub proof fn lemma_find_pair(ids: Seq<(String, Identity)>, key: Seq<char>)
    ensures
        0 <= find_pair(ids, key) <= ids.len(),
        find_pair(ids, key) < ids.len() ==> ids[find_pair(ids, key)].0@ == key,
        forall|j: int| 0 <= j < find_pair(ids, key) ==> (#[trigger] ids[j]).0@ != key,
        find_pair(ids, key) == ids.len() ==> forall|j: int|
            0 <= j < ids.len() ==> (#[trigger] ids[j]).0@ != key,
    decreases ids.len(),
{
    if ids.len() > 0 && ids[0].0@ != key {
        lemma_find_pair(ids.drop_first(), key);
        assert forall|j: int| 0 <= j < find_pair(ids, key) implies (#[trigger] ids[j]).0@
            != key by {
            if j > 0 {
                assert(ids.drop_first()[j - 1] == ids[j]);
            }
        }
        if find_pair(ids, key) == ids.len() {
            assert forall|j: int| 0 <= j < ids.len() implies (#[trigger] ids[j]).0@ != key by {
                if j > 0 {
                    assert(ids.drop_first()[j - 1] == ids[j]);
                }
            }
        }
    }
}

/// The position of the first group pair keyed `key`, or the list's length.
pub open spec fn find_group_pair(gs: Seq<(String, ServerGroup)>, key: Seq<char>) -> int
    decreases gs.len(),
{
    if gs.len() == 0 {
        0
    } else if gs[0].0@ == key {
        0
    } else {
        1 + find_group_pair(gs.drop_first(), key)
    }
}

/// `find_group_pair` finds the first group pair carrying `key`, if any.
pub proof fn lemma_find_group_pair(gs: Seq<(String, ServerGroup)>, key: Seq<char>)
    ensures
        0 <= find_group_pair(gs, key) <= gs.len(),
        find_group_pair(gs, key) < gs.len() ==> gs[find_group_pair(gs, key)].0@ == key,
        forall|j: int| 0 <= j < find_group_pair(gs, key) ==> (#[trigger] gs[j]).0@ != key,
        find_group_pair(gs, key) == gs.len() ==> forall|j: int|
            0 <= j < gs.len() ==> (#[trigger] gs[j]).0@ != key,
    decreases gs.len(),
{
    if gs.len() > 0 && gs[0].0@ != key {
        lemma_find_group_pair(gs.drop_first(), key);
        assert forall|j: int| 0 <= j < find_group_pair(gs, key) implies (#[trigger] gs[j]).0@
            != key by {
            if j > 0 {
                assert(gs.drop_first()[j - 1] == gs[j]);
            }
        }
        if find_group_pair(gs, key) == gs.len() {
            assert forall|j: int| 0 <= j < gs.len() implies (#[trigger] gs[j]).0@ != key by {
                if j > 0 {
                    assert(gs.drop_first()[j - 1] == gs[j]);
                }
            }
        }
    }
}

/// The whole inventory: identities keyed by user name, groups keyed by
/// group label.
pub struct Servers {
    identities: Vec<(String, Identity)>,
    pub groups: Vec<(String, ServerGroup)>,
}

impl Servers {
    /// The identity pairs.
    pub closed spec fn spec_identities(&self) -> Seq<(String, Identity)> {
        self.identities@
    }

    /// The group pairs.
    pub closed spec fn spec_groups(&self) -> Seq<(String, ServerGroup)> {
        self.groups@
    }

    /// Keys are pairwise distinct in both association lists.
    pub open spec fn wf(&self) -> bool {
        &&& forall|i: int, j: int|
            0 <= i < j < self.spec_identities().len() ==> (#[trigger] self.spec_identities()[i]).0@
                != (#[trigger] self.spec_identities()[j]).0@
        &&& forall|i: int, j: int|
            0 <= i < j < self.spec_groups().len() ==> (#[trigger] self.spec_groups()[i]).0@ != (
            #[trigger] self.spec_groups()[j]).0@
    }

    /// What `find_by_name` hands back: the last matching server of the last
    /// group with a match, or nothing.
    pub open spec fn spec_find_by_name(&self, name: Seq<char>) -> Option<Server> {
        let g = last_group_named(self.spec_groups(), name);
        if g >= 0 {
            let ss = self.spec_groups()[g].1.servers@;
            Option::Some(ss[last_named(ss, name)])
        } else {
            Option::None
        }
    }

    /// What `identity` hands back for a user name.
    pub closed spec fn spec_identity(&self, user: Seq<char>) -> Option<Identity> {
        let fi = find_pair(self.identities@, user);
        if fi < self.identities@.len() {
            Option::Some(self.identities@[fi].1)
        } else {
            Option::None
        }
    }

    /// An empty inventory.
    pub fn new() -> (s: Servers)
        ensures
            s.wf(),
            s.spec_identities() =~= Seq::<(String, Identity)>::empty(),
            s.spec_groups() =~= Seq::<(String, ServerGroup)>::empty(),
    {
        Servers { identities: Vec::new(), groups: Vec::new() }
    }

    /// Add an identity under `user`; a user already present keeps its place
    /// and takes the new identity, as a map insert would.
    pub fn add_identity(&mut self, user: String, id: Identity)
        requires
            old(self).wf(),
        ensures
            final(self).wf(),
            final(self).spec_groups() == old(self).spec_groups(),
            final(self).spec_identities() == if find_pair(old(self).spec_identities(), user@)
                < old(self).spec_identities().len() {
                old(self).spec_identities().update(
                    find_pair(old(self).spec_identities(), user@),
                    (user, id),
                )
            } else {
                old(self).spec_identities().push((user, id))
            },
    {
        let ghost key = user@;
        let n = self.identities.len();
        proof {
            lemma_find_pair(self.identities@, key);
        }
        let mut i: usize = 0;
        while i < n
            invariant
                old(self).wf(),
                self == old(self),
                n == self.identities@.len(),
                i <= n,
                key == user@,
                forall|j: int| 0 <= j < i ==> (#[trigger] self.identities@[j]).0@ != key,
            decreases n - i,
        {
            if str_eq(self.identities[i].0.as_str(), user.as_str()) {
                proof {
                    lemma_find_pair(self.identities@, key);
                    assert(find_pair(self.identities@, key) == i);
                }
                let e = &mut self.identities[i];
                *e = (user, id);
                proof {
                    assert(self.identities@ =~= old(self).identities@.update(
                        i as int,
                        self.identities@[i as int],
                    ));
                    assert forall|p: int, q: int|
                        0 <= p < q < self.identities@.len() implies (
                    #[trigger] self.identities@[p]).0@ != (#[trigger] self.identities@[q]).0@ by {
                        assert(old(self).identities@[i as int].0@ == key);
                        assert(self.identities@[p].0@ == old(self).spec_identities()[p].0@);
                        assert(self.identities@[q].0@ == old(self).spec_identities()[q].0@);
                        assert(old(self).spec_identities()[p].0@ != old(self).spec_identities()[q].0@);
                    }
                    assert forall|gp: int, gq: int|
                        0 <= gp < gq < self.spec_groups().len() implies (
                    #[trigger] self.spec_groups()[gp]).0@ != (#[trigger] self.spec_groups()[gq]).0@ by {
                        assert(self.spec_groups()[gp] == old(self).spec_groups()[gp]);
                        assert(self.spec_groups()[gq] == old(self).spec_groups()[gq]);
                        assert(old(self).spec_groups()[gp].0@ != old(self).spec_groups()[gq].0@);
                    }
                }
                return ;
            }
            i = i + 1;
        }
        proof {
            lemma_find_pair(self.identities@, key);
            assert(find_pair(self.identities@, key) == n);
        }
        let ghost pre = self.identities@;
        self.identities.push((user, id));
        proof {
            assert(self.identities@ =~= pre.push(self.identities@[n as int]));
            assert(pre == old(self).spec_identities());
            assert forall|p: int, q: int| 0 <= p < q < self.identities@.len() implies (
            #[trigger] self.identities@[p]).0@ != (#[trigger] self.identities@[q]).0@ by {
                if q < n {
                    assert(self.identities@[p] == pre[p] && self.identities@[q] == pre[q]);
                    assert(old(self).spec_identities()[p].0@ != old(self).spec_identities()[
                        q
                    ].0@);
                } else {
                    assert(self.identities@[p] == pre[p]);
                    assert(self.identities@[q].0@ == key);
                }
            }
                    assert forall|gp: int, gq: int|
                        0 <= gp < gq < self.spec_groups().len() implies (
                    #[trigger] self.spec_groups()[gp]).0@ != (#[trigger] self.spec_groups()[gq]).0@ by {
                        assert(self.spec_groups()[gp] == old(self).spec_groups()[gp]);
                        assert(self.spec_groups()[gq] == old(self).spec_groups()[gq]);
                        assert(old(self).spec_groups()[gp].0@ != old(self).spec_groups()[gq].0@);
                    }
        }
    }

    /// Add a group under `label`; a label already present keeps its place
    /// and takes the new group, as a map insert would.
    pub fn add_group(&mut self, label: String, sg: ServerGroup)
        requires
            old(self).wf(),
        ensures
            final(self).wf(),
            final(self).spec_identities() == old(self).spec_identities(),
            final(self).spec_groups() == if find_group_pair(old(self).spec_groups(), label@)
                < old(self).spec_groups().len() {
                old(self).spec_groups().update(
                    find_group_pair(old(self).spec_groups(), label@),
                    (label, sg),
                )
            } else {
                old(self).spec_groups().push((label, sg))
            },
    {
        let ghost key = label@;
        let n = self.groups.len();
        proof {
            lemma_find_group_pair(self.groups@, key);
        }
        let mut i: usize = 0;
        while i < n
            invariant
                old(self).wf(),
                self == old(self),
                n == self.groups@.len(),
                i <= n,
                key == label@,
                forall|j: int| 0 <= j < i ==> (#[trigger] self.groups@[j]).0@ != key,
            decreases n - i,
        {
            if str_eq(self.groups[i].0.as_str(), label.as_str()) {
                proof {
                    lemma_find_group_pair(self.groups@, key);
                    assert(find_group_pair(self.groups@, key) == i);
                }
                let e = &mut self.groups[i];
                *e = (label, sg);
                proof {
                    assert(self.groups@ =~= old(self).groups@.update(
                        i as int,
                        self.groups@[i as int],
                    ));
                    assert forall|p: int, q: int| 0 <= p < q < self.groups@.len() implies (
                    #[trigger] self.groups@[p]).0@ != (#[trigger] self.groups@[q]).0@ by {
                        assert(old(self).groups@[i as int].0@ == key);
                        assert(self.groups@[p].0@ == old(self).spec_groups()[p].0@);
                        assert(self.groups@[q].0@ == old(self).spec_groups()[q].0@);
                        assert(old(self).spec_groups()[p].0@ != old(self).spec_groups()[q].0@);
                    }
                    assert forall|gp: int, gq: int|
                        0 <= gp < gq < self.spec_identities().len() implies (
                    #[trigger] self.spec_identities()[gp]).0@ != (#[trigger] self.spec_identities()[gq]).0@ by {
                        assert(self.spec_identities()[gp] == old(self).spec_identities()[gp]);
                        assert(self.spec_identities()[gq] == old(self).spec_identities()[gq]);
                        assert(old(self).spec_identities()[gp].0@ != old(self).spec_identities()[gq].0@);
                    }
                }
                return ;
            }
            i = i + 1;
        }
        proof {
            lemma_find_group_pair(self.groups@, key);
            assert(find_group_pair(self.groups@, key) == n);
        }
        let ghost pre = self.groups@;
        self.groups.push((label, sg));
        proof {
            assert(self.groups@ =~= pre.push(self.groups@[n as int]));
            assert(pre == old(self).spec_groups());
            assert forall|p: int, q: int| 0 <= p < q < self.groups@.len() implies (
            #[trigger] self.groups@[p]).0@ != (#[trigger] self.groups@[q]).0@ by {
                if q < n {
                    assert(self.groups@[p] == pre[p] && self.groups@[q] == pre[q]);
                    assert(old(self).spec_groups()[p].0@ != old(self).spec_groups()[q].0@);
                } else {
                    assert(self.groups@[p] == pre[p]);
                    assert(self.groups@[q].0@ == key);
                }
            }
                    assert forall|gp: int, gq: int|
                        0 <= gp < gq < self.spec_identities().len() implies (
                    #[trigger] self.spec_identities()[gp]).0@ != (#[trigger] self.spec_identities()[gq]).0@ by {
                        assert(self.spec_identities()[gp] == old(self).spec_identities()[gp]);
                        assert(self.spec_identities()[gq] == old(self).spec_identities()[gq]);
                        assert(old(self).spec_identities()[gp].0@ != old(self).spec_identities()[gq].0@);
                    }
        }
    }

    /// The servers of the group labelled `group`. Asking for an unknown
    /// label is a caller error, excluded by precondition rather than
    /// handled at run time.
    pub fn find_by_group(&self, group: &str) -> (r: &Vec<Server>)
        requires
            find_group_pair(self.spec_groups(), group@) < self.spec_groups().len(),
        ensures
            r@ == self.spec_groups()[find_group_pair(self.spec_groups(), group@)].1.servers@,
    {
        let n = self.groups.len();
        proof {
            lemma_find_group_pair(self.groups@, group@);
        }
        let mut i: usize = 0;
        while i < n
            invariant
                n == self.groups@.len(),
                i <= n,
                find_group_pair(self.groups@, group@) < n,
                forall|j: int| 0 <= j < i ==> (#[trigger] self.groups@[j]).0@ != group@,
            decreases n - i,
        {
            if str_eq(self.groups[i].0.as_str(), group) {
                proof {
                    lemma_find_group_pair(self.groups@, group@);
                    assert(find_group_pair(self.groups@, group@) == i);
                }
                return &self.groups[i].1.servers;
            }
            i = i + 1;
        }
        proof {
            lemma_find_group_pair(self.groups@, group@);
            assert(false);
        }
        vstd::pervasive::unreached()
    }

    /// The last server named `name` of the last group holding one, or
    /// nothing: with duplicate names the match is ambiguous, and the later
    /// entry wins.
    pub fn find_by_name(&self, name: &str) -> (r: Option<&Server>)
        ensures
            match r {
                Option::Some(s) => self.spec_find_by_name(name@) == Option::Some(*s),
                Option::None => self.spec_find_by_name(name@) is None,
            },
    {
        let gn = self.groups.len();
        let mut result: Option<&Server> = Option::None;
        proof {
            assert(self.groups@.take(0) =~= Seq::<(String, ServerGroup)>::empty());
        }
        let mut g: usize = 0;
        while g < gn
            invariant
                gn == self.groups@.len(),
                g <= gn,
                ({
                    let lg = last_group_named(self.groups@.take(g as int), name@);
                    match result {
                        Option::Some(s) => lg >= 0 && Option::Some(*s) == {
                            let ss = self.groups@.take(g as int)[lg].1.servers@;
                            Option::Some(ss[last_named(ss, name@)])
                        },
                        Option::None => lg == -1,
                    }
                }),
            decreases gn - g,
        {
            let sg = &self.groups[g].1.servers;
            let sn = sg.len();
            let ghost carried = result;
            proof {
                assert(sg@.take(0) =~= Seq::<Server>::empty());
            }
            let mut i: usize = 0;
            while i < sn
                invariant
                    gn == self.groups@.len(),
                    g < gn,
                    sg == &self.groups@[g as int].1.servers,
                    sn == sg@.len(),
                    i <= sn,
                    ({
                        let li = last_named(sg@.take(i as int), name@);
                        if li >= 0 {
                            result == Option::Some(&sg[li])
                        } else {
                            result == carried
                        }
                    }),
                    ({
                        let lg = last_group_named(self.groups@.take(g as int), name@);
                        match carried {
                            Option::Some(s) => lg >= 0 && Option::Some(*s) == {
                                let ss = self.groups@.take(g as int)[lg].1.servers@;
                                Option::Some(ss[last_named(ss, name@)])
                            },
                            Option::None => lg == -1,
                        }
                    }),
                decreases sn - i,
            {
                proof {
                    assert(sg@.take(i as int + 1).drop_last() =~= sg@.take(i as int));
                    assert(sg@.take(i as int + 1).last() == sg@[i as int]);
                }
                if str_eq(sg[i].name.as_str(), name) {
                    result = Option::Some(&sg[i]);
                }
                i = i + 1;
            }
            proof {
                assert(sg@.take(sn as int) =~= sg@);
                assert(self.groups@.take(g as int + 1).drop_last() =~= self.groups@.take(
                    g as int,
                ));
                assert(self.groups@.take(g as int + 1).last() == self.groups@[g as int]);
                lemma_last_named(sg@, name@);
                lemma_last_group_named(self.groups@.take(g as int), name@);
                lemma_last_group_named(self.groups@.take(g as int + 1), name@);
                let lg0 = last_group_named(self.groups@.take(g as int), name@);
                let lg1 = last_group_named(self.groups@.take(g as int + 1), name@);
                if last_named(sg@, name@) >= 0 {
                    assert(lg1 == g as int);
                    assert(self.groups@.take(g as int + 1)[lg1] == self.groups@[g as int]);
                } else {
                    assert(lg1 == lg0);
                    if lg0 >= 0 {
                        assert(self.groups@.take(g as int + 1)[lg0] == self.groups@.take(
                            g as int,
                        )[lg0]);
                    }
                }
            }
            g = g + 1;
        }
        proof {
            assert(self.groups@.take(gn as int) =~= self.groups@);
        }
        result
    }

    /// The identity under the server's user name, or nothing.
    pub fn identity(&self, server: &Server) -> (r: Option<&Identity>)
        ensures
            match r {
                Option::Some(id) => self.spec_identity(server.user@) == Option::Some(*id),
                Option::None => self.spec_identity(server.user@) is None,
            },
    {
        let n = self.identities.len();
        proof {
            lemma_find_pair(self.identities@, server.user@);
        }
        let mut i: usize = 0;
        while i < n
            invariant
                n == self.identities@.len(),
                i <= n,
                forall|j: int| 0 <= j < i ==> (#[trigger] self.identities@[j]).0@ != server.user@,
            decreases n - i,
        {
            if str_eq(self.identities[i].0.as_str(), server.user.as_str()) {
                proof {
                    lemma_find_pair(self.identities@, server.user@);
                    assert(find_pair(self.identities@, server.user@) == i);
                }
                return Option::Some(&self.identities[i].1);
            }
            i = i + 1;
        }
        proof {
            lemma_find_pair(self.identities@, server.user@);
        }
        Option::None
    }

    /// The named server together with its identity: nothing when the name
    /// is unknown, and nothing when the server's user has no identity.
    pub fn server_with_identity(&self, name: &str) -> (r: Option<(&Server, &Identity)>)
        ensures
            match r {
                Option::Some(pair) => {
                    &&& self.spec_find_by_name(name@) == Option::Some(*pair.0)
                    &&& self.spec_identity(pair.0.user@) == Option::Some(*pair.1)
                },
                Option::None => {
                    ||| self.spec_find_by_name(name@) is None
                    ||| (self.spec_find_by_name(name@) matches Option::Some(s)
                        && self.spec_identity(s.user@) is None)
                },
            },
    {
        let server = match self.find_by_name(name) {
            Option::Some(s) => s,
            Option::None => {
                return Option::None;
            },
        };
        let identity = match self.identity(server) {
            Option::Some(id) => id,
            Option::None => {
                return Option::None;
            },
        };
        Option::Some((server, identity))
    }
}

} // verus!
