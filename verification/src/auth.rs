//! The host registry: host records and identities, held in a slot store
//! under persistent keys, with a group index from each group label to the
//! keys registered under it, in insertion order.

use vstd::prelude::*;
use crate::net::{Address, addr_index, has_addr, lookup_mark};
use crate::slot::{Entry, Slot, insert_post, used_value};
use crate::text::str_eq;

verus! {

/// How a user authenticates: by password, or by a key file.
pub enum AuthType {
    Password,
    Key(String),
}

/// A user together with its way of authenticating.
pub struct Identity {
    user: String,
    auth: AuthType,
}

impl Identity {
    /// The user name.
    pub closed spec fn spec_user(&self) -> Seq<char> {
        self.user@
    }

    /// The authentication method.
    pub closed spec fn spec_auth(&self) -> AuthType {
        self.auth
    }

    /// An identity for `name`; a key file means key authentication, none
    /// means password authentication.
    pub fn new(name: String, key: Option<String>) -> (id: Identity)
        ensures
            id.spec_user() == name@,
            match key {
                Option::Some(k) => id.spec_auth() == AuthType::Key(k),
                Option::None => id.spec_auth() == AuthType::Password,
            },
    {
        let auth = match key {
            Option::None => AuthType::Password,
            Option::Some(k) => AuthType::Key(k),
        };
        Identity { user: name, auth }
    }

    pub fn user(&self) -> (r: &str)
        ensures
            r@ == self.spec_user(),
    {
        self.user.as_str()
    }

    pub fn auth(&self) -> (r: &AuthType)
        ensures
            *r == self.spec_auth(),
    {
        &self.auth
    }
}

/// A host record: alias, group label, host name, port, standard user, and
/// the prober's two annotations — the lazily resolved address and the
/// liveness flag, both empty until a probe session fills them in.
pub struct Server {
    alias: String,
    group: String,
    hostname: String,
    port: String,
    std_user: String,
    resolved: Option<Address>,
    alive: bool,
}

impl Server {
    pub closed spec fn spec_name(&self) -> Seq<char> {
        self.alias@
    }

    pub closed spec fn spec_group(&self) -> Seq<char> {
        self.group@
    }

    pub closed spec fn spec_hostname(&self) -> Seq<char> {
        self.hostname@
    }

    pub closed spec fn spec_port(&self) -> Seq<char> {
        self.port@
    }

    pub closed spec fn spec_user(&self) -> Seq<char> {
        self.std_user@
    }

    pub closed spec fn spec_resolved(&self) -> Option<Address> {
        self.resolved
    }

    pub closed spec fn spec_alive(&self) -> bool {
        self.alive
    }

    /// Everything but the prober's two annotations agrees between the two
    /// records.
    pub open spec fn same_inventory(&self, other: &Server) -> bool {
        &&& self.spec_name() == other.spec_name()
        &&& self.spec_group() == other.spec_group()
        &&& self.spec_hostname() == other.spec_hostname()
        &&& self.spec_port() == other.spec_port()
        &&& self.spec_user() == other.spec_user()
    }

    /// A fresh record: no resolved address yet, not known live.
    pub fn new(
        alias: String,
        group: String,
        hostname: String,
        port: String,
        std_user: String,
    ) -> (s: Server)
        ensures
            s.spec_name() == alias@,
            s.spec_group() == group@,
            s.spec_hostname() == hostname@,
            s.spec_port() == port@,
            s.spec_user() == std_user@,
            s.spec_resolved() is None,
            !s.spec_alive(),
    {
        Server { alias, group, hostname, port, std_user, resolved: Option::None, alive: false }
    }

    pub fn name(&self) -> (r: &str)
        ensures
            r@ == self.spec_name(),
    {
        self.alias.as_str()
    }

    pub fn hostname(&self) -> (r: &str)
        ensures
            r@ == self.spec_hostname(),
    {
        self.hostname.as_str()
    }

    pub fn user(&self) -> (r: &str)
        ensures
            r@ == self.spec_user(),
    {
        self.std_user.as_str()
    }

    pub fn group(&self) -> (r: &str)
        ensures
            r@ == self.spec_group(),
    {
        self.group.as_str()
    }

    pub fn port(&self) -> (r: &str)
        ensures
            r@ == self.spec_port(),
    {
        self.port.as_str()
    }

    /// The resolved address, once a probe session has filled it in.
    pub fn resolved(&self) -> (r: Option<Address>)
        ensures
            r == self.spec_resolved(),
    {
        self.resolved
    }

    /// The liveness flag.
    pub fn alive(&self) -> (r: bool)
        ensures
            r == self.spec_alive(),
    {
        self.alive
    }
}

/// The position of `label` among the group index pairs, or their number
/// when the label is not yet known.
pub open spec fn find_group(gs: Seq<(String, Vec<usize>)>, label: Seq<char>) -> int
    decreases gs.len(),
{
    if gs.len() == 0 {
        0
    } else if gs[0].0@ == label {
        0
    } else {
        1 + find_group(gs.drop_first(), label)
    }
}

/// `find_group` finds the first pair carrying `label`, if any.
pub proof fn lemma_find_group(gs: Seq<(String, Vec<usize>)>, label: Seq<char>)
    ensures
        0 <= find_group(gs, label) <= gs.len(),
        find_group(gs, label) < gs.len() ==> gs[find_group(gs, label)].0@ == label,
        forall|j: int| 0 <= j < find_group(gs, label) ==> (#[trigger] gs[j]).0@ != label,
        find_group(gs, label) == gs.len() ==> forall|j: int|
            0 <= j < gs.len() ==> (#[trigger] gs[j]).0@ != label,
    decreases gs.len(),
{
    if gs.len() > 0 && gs[0].0@ != label {
        lemma_find_group(gs.drop_first(), label);
        assert forall|j: int| 0 <= j < find_group(gs, label) implies (#[trigger] gs[j]).0@
            != label by {
            if j > 0 {
                assert(gs.drop_first()[j - 1] == gs[j]);
            }
        }
        if find_group(gs, label) == gs.len() {
            assert forall|j: int| 0 <= j < gs.len() implies (#[trigger] gs[j]).0@ != label by {
                if j > 0 {
                    assert(gs.drop_first()[j - 1] == gs[j]);
                }
            }
        }
    }
}

/// Appending a key to the pair at position `gi` moves no label, so no
/// `find_group` position changes.
pub proof fn lemma_find_group_update(
    gs: Seq<(String, Vec<usize>)>,
    label: Seq<char>,
    gi: int,
    p: (String, Vec<usize>),
)
    requires
        0 <= gi < gs.len(),
        p.0@ == gs[gi].0@,
    ensures
        find_group(gs.update(gi, p), label) == find_group(gs, label),
    decreases gs.len(),
{
    let t = gs.update(gi, p);
    assert(t[0].0@ == gs[0].0@);
    if gs.len() > 0 && gs[0].0@ != label {
        if gi == 0 {
            assert(t.drop_first() =~= gs.drop_first());
        } else {
            assert(t.drop_first() =~= gs.drop_first().update(gi - 1, p));
            lemma_find_group_update(gs.drop_first(), label, gi - 1, p);
        }
    }
}

/// The group-aware registry: one slot store of host records, a group index
/// of `(label, keys)` pairs in first-use order, and the known identities.
pub struct ServerManager {
    servers: Slot<Server>,
    groups: Vec<(String, Vec<usize>)>,
    identities: Vec<Identity>,
}

impl View for ServerManager {
    type V = Seq<Entry<Server>>;

    closed spec fn view(&self) -> Seq<Entry<Server>> {
        self.servers@
    }
}

impl ServerManager {
    /// The key the next added record will receive.
    pub closed spec fn next_key(&self) -> int {
        self.servers.free_head()
    }

    /// The group labels, in first-use order.
    pub closed spec fn group_labels(&self) -> Seq<Seq<char>> {
        Seq::new(self.groups@.len(), |i: int| self.groups@[i].0@)
    }

    /// The keys registered under `label`, in insertion order; empty when
    /// the label is unknown.
    pub closed spec fn group_keys(&self, label: Seq<char>) -> Seq<usize> {
        let gi = find_group(self.groups@, label);
        if gi < self.groups@.len() {
            self.groups@[gi].1@
        } else {
            Seq::empty()
        }
    }

    /// The identities handed to the constructor.
    pub closed spec fn spec_identities(&self) -> Seq<Identity> {
        self.identities@
    }

    /// The registry invariant: the store is well-formed; group labels are
    /// pairwise distinct; a key stands in group `g`'s list exactly when its
    /// slot is `Used` and its record's group field equals `g`; and no key
    /// stands in a list twice.
    pub closed spec fn wf(&self) -> bool {
        &&& self.servers.wf()
        &&& forall|i: int, j: int|
            0 <= i < j < self.groups@.len() ==> (#[trigger] self.groups@[i]).0@ != (
            #[trigger] self.groups@[j]).0@
        &&& forall|g: int, t: int|
            0 <= g < self.groups@.len() && 0 <= t < self.groups@[g].1@.len()
                ==> #[trigger] self.key_in_group_ok(g, t)
        &&& forall|k: int|
            0 <= k < self.servers@.len() && (#[trigger] self.servers@[k]) is Used
                ==> self.used_key_indexed(k)
        &&& forall|g: int, t1: int, t2: int|
            0 <= g < self.groups@.len() && 0 <= t1 < t2 < self.groups@[g].1@.len() ==> #[trigger] self.groups@[g].1@[t1] != #[trigger] self.groups@[g].1@[t2]
    }

    /// Entry `t` of group `g`'s key list addresses a `Used` slot whose
    /// record carries `g`'s label.
    pub closed spec fn key_in_group_ok(&self, g: int, t: int) -> bool {
        let k = self.groups@[g].1@[t] as int;
        &&& 0 <= k < self.servers@.len()
        &&& self.servers@[k] is Used
        &&& used_value(self.servers@[k]).spec_group() == self.groups@[g].0@
    }

    /// The used slot `k` stands in the key list of its record's group.
    pub closed spec fn used_key_indexed(&self, k: int) -> bool {
        let label = used_value(self.servers@[k]).spec_group();
        let gi = find_group(self.groups@, label);
        &&& gi < self.groups@.len()
        &&& self.groups@[gi].1@.contains(k as usize)
    }

    /// An empty registry over the given identities.
    pub fn new(identities: Vec<Identity>) -> (m: ServerManager)
        ensures
            m.wf(),
            m@ =~= Seq::<Entry<Server>>::empty(),
            m.group_labels() =~= Seq::<Seq<char>>::empty(),
            m.spec_identities() == identities@,
            m.next_key() == 0,
    {
        let m = ServerManager { servers: Slot::new(), groups: Vec::new(), identities };
        proof {
            lemma_find_group(m.groups@, Seq::empty());
        }
        m
    }

    /// Add a record: insert it into the slot store, then append the issued
    /// key to its group's list, creating the list on the label's first use.
    pub fn add_server(&mut self, server: Server) -> (key: usize)
        requires
            old(self).wf(),
            old(self)@.len() < usize::MAX,
        ensures
            final(self).wf(),
            key as int == old(self).next_key(),
            final(self)@ == insert_post(old(self)@, server, key as int),
            (key as int) < final(self)@.len(),
            final(self).group_keys(server.spec_group()) == old(self).group_keys(
                server.spec_group(),
            ).push(key),
            forall|l: Seq<char>|
                l != server.spec_group() ==> #[trigger] final(self).group_keys(l) == old(self).group_keys(l),
            final(self).group_labels() == if old(self).group_labels().contains(
                server.spec_group(),
            ) {
                old(self).group_labels()
            } else {
                old(self).group_labels().push(server.spec_group())
            },
            final(self).spec_identities() == old(self).spec_identities(),
            final(self).next_key() == crate::slot::head_after_insert(old(self)@, key as int),
    {
        let ghost glabel = server.spec_group();
        let group_name: String = clone_string(server.group());
        proof {
            self.servers.lemma_head_in_range_pub();
        }
        let key = self.servers.insert(server);
        let ghost sv = self.servers;
        let ghost gs0 = self.groups@;
        let ghost ids0 = self.identities@;
        proof {
            lemma_find_group(gs0, glabel);
            assert(sv@[key as int] == Entry::Used(server));
        }
        let n = self.groups.len();
        let mut gi: usize = 0;
        while gi < n
            invariant
                old(self).wf(),
                old(self)@.len() < usize::MAX,
                self.servers == sv,
                self.groups@ == gs0,
                self.identities@ == ids0,
                gs0 == old(self).groups@,
                ids0 == old(self).identities@,
                key as int == old(self).next_key(),
                sv.wf(),
                sv@ == insert_post(old(self)@, server, key as int),
                sv.free_head() == crate::slot::head_after_insert(old(self)@, key as int),
                sv@[key as int] == Entry::Used(server),
                (key as int) < sv@.len(),
                n == gs0.len(),
                gi <= n,
                group_name@ == glabel,
                glabel == server.spec_group(),
                forall|j: int| 0 <= j < gi ==> (#[trigger] gs0[j]).0@ != glabel,
            decreases n - gi,
        {
            if str_eq(self.groups[gi].0.as_str(), group_name.as_str()) {
                proof {
                    lemma_find_group(gs0, glabel);
                    assert(find_group(gs0, glabel) == gi);
                }
                let pair = &mut self.groups[gi];
                pair.1.push(key);
                proof {
                    let newpair = self.groups@[gi as int];
                    assert(self.groups@ =~= gs0.update(gi as int, newpair));
                    assert(newpair.0@ == glabel);
                    assert(newpair.1@ =~= gs0[gi as int].1@.push(key));
                    self.lemma_add_server_existing_group(old(self), gs0, gi as int, key, glabel);
                }
                return key;
            }
            gi = gi + 1;
        }
        proof {
            lemma_find_group(gs0, glabel);
            assert(find_group(gs0, glabel) == n);
        }
        let mut keys: Vec<usize> = Vec::new();
        keys.push(key);
        self.groups.push((group_name, keys));
        proof {
            assert(self.groups@ =~= gs0.push(self.groups@[n as int]));
            assert(self.groups@[n as int].0@ == glabel);
            assert(self.groups@[n as int].1@ =~= seq![key]);
            self.lemma_add_server_new_group(old(self), gs0, key, glabel);
        }
        key
    }

    /// The bookkeeping behind `add_server` when the label already had a
    /// list: only that list changes, by one appended key.
    proof fn lemma_add_server_existing_group(
        &self,
        pre: &ServerManager,
        gs0: Seq<(String, Vec<usize>)>,
        gi: int,
        key: usize,
        glabel: Seq<char>,
    )
        requires
            pre.wf(),
            pre@.len() < usize::MAX,
            0 <= gi < gs0.len(),
            pre.groups@ == gs0,
            find_group(gs0, glabel) == gi,
            gs0[gi].0@ == glabel,
            self.identities@ == pre.identities@,
            self.servers@ == insert_post(pre@, used_value(self.servers@[pre.next_key()]), pre.next_key()),
            self.servers.wf(),
            key as int == pre.next_key(),
            self.servers@[key as int] is Used,
            used_value(self.servers@[key as int]).spec_group() == glabel,
            self.groups@ == gs0.update(gi, self.groups@[gi]),
            self.groups@[gi].0@ == glabel,
            self.groups@[gi].1@ == gs0[gi].1@.push(key),
        ensures
            self.wf(),
            self.group_keys(glabel) == pre.group_keys(glabel).push(key),
            forall|l: Seq<char>|
                l != glabel ==> #[trigger] self.group_keys(l) == pre.group_keys(l),
            self.group_labels() == if pre.group_labels().contains(glabel) {
                pre.group_labels()
            } else {
                pre.group_labels().push(glabel)
            },
    {
        let gs1 = self.groups@;
        let es0 = pre@;
        let es1 = self.servers@;
        pre.servers.lemma_head_in_range_pub();
        assert(gs1.len() == gs0.len());
        assert forall|j: int| 0 <= j < gs1.len() implies (#[trigger] gs1[j]).0@ == gs0[j].0@ by {}
        // keys below the new one are untouched in the store
        assert(key as int <= es0.len());
        assert forall|k: int| 0 <= k < es0.len() && k != key as int implies es1[k] == es0[k] by {}
        assert(es1.len() <= es0.len() + 1);
        // group labels unchanged
        assert(self.group_labels() =~= pre.group_labels());
        assert(pre.group_labels().contains(glabel)) by {
            assert(pre.group_labels()[gi] == glabel);
        }
        // find_group positions unchanged
        assert forall|l: Seq<char>| #[trigger] find_group(gs1, l) == find_group(gs0, l) by {
            lemma_find_group_update(gs0, l, gi, gs1[gi]);
            assert(gs1 =~= gs0.update(gi, gs1[gi]));
        }
        // group_keys relations
        assert(self.group_keys(glabel) =~= pre.group_keys(glabel).push(key));
        assert forall|l: Seq<char>| l != glabel implies #[trigger] self.group_keys(l)
            == pre.group_keys(l) by {
            let fi = find_group(gs0, l);
            lemma_find_group(gs0, l);
            if fi < gs0.len() {
                assert(fi != gi);
                assert(gs1[fi] == gs0[fi]);
            }
        }
        // wf: label distinctness
        assert forall|i: int, j: int| 0 <= i < j < gs1.len() implies (#[trigger] gs1[i]).0@ != (
        #[trigger] gs1[j]).0@ by {
            assert(gs1[i].0@ == gs0[i].0@ && gs1[j].0@ == gs0[j].0@);
        }
        // wf: every listed key is used with the right label
        assert forall|g: int, t: int|
            0 <= g < gs1.len() && 0 <= t < gs1[g].1@.len() implies #[trigger] self.key_in_group_ok(
            g,
            t,
        ) by {
            if g == gi && t == gs1[g].1@.len() - 1 {
                assert(gs1[g].1@[t] == key);
            } else {
                let k0 = if g == gi {
                    assert(gs1[g].1@[t] == gs0[g].1@[t]);
                    gs0[g].1@[t]
                } else {
                    assert(gs1[g] == gs0[g]);
                    gs0[g].1@[t]
                };
                assert(pre.key_in_group_ok(g, t));
                assert(k0 as int != key as int) by {
                    assert(es0[k0 as int] is Used);
                    if (key as int) < es0.len() {
                        assert(es0[key as int] is Empty) by {
                            pre.servers.lemma_head_in_range_pub();
                        }
                    }
                }
                assert(es1[k0 as int] == es0[k0 as int]);
            }
        }
        // wf: every used key is indexed
        assert forall|k: int| 0 <= k < es1.len() && (#[trigger] es1[k]) is Used implies self
            .used_key_indexed(k) by {
            if k == key as int {
                assert(find_group(gs1, glabel) == gi);
                assert(gs1[gi].1@[gs1[gi].1@.len() - 1] == key);
                assert(gs1[gi].1@.contains(key));
            } else {
                assert(es1[k] == es0[k]);
                assert(pre.used_key_indexed(k));
                let label = used_value(es0[k]).spec_group();
                let fi = find_group(gs0, label);
                lemma_find_group(gs0, label);
                assert(find_group(gs1, label) == fi);
                assert(gs0[fi].1@.contains(k as usize));
                let w = choose|w: int| 0 <= w < gs0[fi].1@.len() && gs0[fi].1@[w] == k as usize;
                if fi == gi {
                    assert(gs1[fi].1@[w] == k as usize);
                } else {
                    assert(gs1[fi] == gs0[fi]);
                }
                assert(gs1[fi].1@.contains(k as usize));
            }
        }
        // wf: no key twice in a list
        assert forall|g: int, t1: int, t2: int|
            0 <= g < gs1.len() && 0 <= t1 < t2 < gs1[g].1@.len() implies #[trigger] gs1[g].1@[t1]
            != #[trigger] gs1[g].1@[t2] by {
            if g == gi {
                if t2 == gs1[g].1@.len() - 1 {
                    assert(gs1[g].1@[t1] == gs0[g].1@[t1]);
                    assert(gs1[g].1@[t2] == key);
                    assert(pre.key_in_group_ok(g, t1));
                    let k0 = gs0[g].1@[t1];
                    assert(es0[k0 as int] is Used);
                    if (key as int) < es0.len() {
                        assert(es0[key as int] is Empty) by {
                            pre.servers.lemma_head_in_range_pub();
                        }
                    }
                } else {
                    assert(gs1[g].1@[t1] == gs0[g].1@[t1]);
                    assert(gs1[g].1@[t2] == gs0[g].1@[t2]);
                }
            } else {
                assert(gs1[g] == gs0[g]);
            }
        }
    }

    /// The bookkeeping behind `add_server` on a label's first use: a new
    /// one-key list is appended and every other list is untouched.
    proof fn lemma_add_server_new_group(
        &self,
        pre: &ServerManager,
        gs0: Seq<(String, Vec<usize>)>,
        key: usize,
        glabel: Seq<char>,
    )
        requires
            pre.wf(),
            pre@.len() < usize::MAX,
            pre.groups@ == gs0,
            find_group(gs0, glabel) == gs0.len(),
            self.identities@ == pre.identities@,
            self.servers@ == insert_post(pre@, used_value(self.servers@[pre.next_key()]), pre.next_key()),
            self.servers.wf(),
            key as int == pre.next_key(),
            self.servers@[key as int] is Used,
            used_value(self.servers@[key as int]).spec_group() == glabel,
            self.groups@ == gs0.push(self.groups@[gs0.len() as int]),
            self.groups@[gs0.len() as int].0@ == glabel,
            self.groups@[gs0.len() as int].1@ == seq![key],
        ensures
            self.wf(),
            self.group_keys(glabel) == pre.group_keys(glabel).push(key),
            forall|l: Seq<char>|
                l != glabel ==> #[trigger] self.group_keys(l) == pre.group_keys(l),
            self.group_labels() == if pre.group_labels().contains(glabel) {
                pre.group_labels()
            } else {
                pre.group_labels().push(glabel)
            },
    {
        let gs1 = self.groups@;
        let es0 = pre@;
        let es1 = self.servers@;
        let n = gs0.len() as int;
        pre.servers.lemma_head_in_range_pub();
        lemma_find_group(gs0, glabel);
        assert(!pre.group_labels().contains(glabel)) by {
            if pre.group_labels().contains(glabel) {
                let w = choose|w: int|
                    0 <= w < pre.group_labels().len() && pre.group_labels()[w] == glabel;
                assert(gs0[w].0@ == glabel);
            }
        }
        assert(self.group_labels() =~= pre.group_labels().push(glabel));
        assert(key as int <= es0.len());
        assert forall|k: int| 0 <= k < es0.len() && k != key as int implies es1[k] == es0[k] by {}
        // find_group: old labels keep their position, the new label sits at n
        assert forall|l: Seq<char>| l != glabel implies #[trigger] find_group(gs1, l)
            == if find_group(gs0, l) < n {
            find_group(gs0, l)
        } else {
            n + 1
        } by {
            lemma_find_group(gs0, l);
            lemma_find_group(gs1, l);
            let fi0 = find_group(gs0, l);
            let fi1 = find_group(gs1, l);
            if fi0 < n {
                assert(gs1[fi0] == gs0[fi0]);
                assert(gs1[fi0].0@ == l);
                if fi1 < fi0 {
                    assert(gs0[fi1] == gs1[fi1]);
                    assert(gs0[fi1].0@ != l);
                    assert(gs1[fi1].0@ == l);
                }
                if fi1 > fi0 {
                    assert(gs1[fi0].0@ != l);
                }
            } else {
                if fi1 < n {
                    assert(gs1[fi1] == gs0[fi1]);
                    assert(gs0[fi1].0@ != l);
                    assert(gs1[fi1].0@ == l);
                }
                if fi1 == n {
                    assert(gs1[n].0@ == glabel);
                }
            }
        }
        assert(find_group(gs1, glabel) == n) by {
            lemma_find_group(gs1, glabel);
            let fi1 = find_group(gs1, glabel);
            if fi1 < n {
                assert(gs1[fi1] == gs0[fi1]);
                assert(gs0[fi1].0@ != glabel);
                assert(gs1[fi1].0@ == glabel);
            }
            if fi1 == n + 1 {
                assert(gs1[n].0@ != glabel);
            }
        }
        assert(pre.group_keys(glabel) =~= Seq::<usize>::empty());
        assert(self.group_keys(glabel) =~= seq![key]);
        assert(self.group_keys(glabel) =~= pre.group_keys(glabel).push(key));
        assert forall|l: Seq<char>| l != glabel implies #[trigger] self.group_keys(l)
            == pre.group_keys(l) by {
            let fi0 = find_group(gs0, l);
            lemma_find_group(gs0, l);
            if fi0 < n {
                assert(gs1[fi0] == gs0[fi0]);
            }
        }
        // wf: label distinctness
        assert forall|i: int, j: int| 0 <= i < j < gs1.len() implies (#[trigger] gs1[i]).0@ != (
        #[trigger] gs1[j]).0@ by {
            if j < n {
                assert(gs1[i] == gs0[i] && gs1[j] == gs0[j]);
            } else {
                assert(gs1[i] == gs0[i]);
                assert(gs1[j].0@ == glabel);
                assert(gs0[i].0@ != glabel);
            }
        }
        // wf: listed keys are used with the right label
        assert forall|g: int, t: int|
            0 <= g < gs1.len() && 0 <= t < gs1[g].1@.len() implies #[trigger] self.key_in_group_ok(
            g,
            t,
        ) by {
            if g == n {
                assert(gs1[g].1@[t] == key);
            } else {
                assert(gs1[g] == gs0[g]);
                assert(pre.key_in_group_ok(g, t));
                let k0 = gs0[g].1@[t];
                assert(k0 as int != key as int) by {
                    assert(es0[k0 as int] is Used);
                    if (key as int) < es0.len() {
                        assert(es0[key as int] is Empty) by {
                            pre.servers.lemma_head_in_range_pub();
                        }
                    }
                }
                assert(es1[k0 as int] == es0[k0 as int]);
            }
        }
        // wf: every used key is indexed
        assert forall|k: int| 0 <= k < es1.len() && (#[trigger] es1[k]) is Used implies self
            .used_key_indexed(k) by {
            if k == key as int {
                assert(gs1[n].1@[0] == key);
                assert(gs1[n].1@.contains(key));
            } else {
                assert(es1[k] == es0[k]);
                assert(pre.used_key_indexed(k));
                let label = used_value(es0[k]).spec_group();
                let fi = find_group(gs0, label);
                lemma_find_group(gs0, label);
                assert(label != glabel);
                assert(find_group(gs1, label) == fi);
                assert(gs1[fi] == gs0[fi]);
            }
        }
        // wf: no key twice in a list
        assert forall|g: int, t1: int, t2: int|
            0 <= g < gs1.len() && 0 <= t1 < t2 < gs1[g].1@.len() implies #[trigger] gs1[g].1@[t1]
            != #[trigger] gs1[g].1@[t2] by {
            if g < n {
                assert(gs1[g] == gs0[g]);
            }
        }
    }
}

/// Clone a borrowed string slice into an owned `String`.
fn clone_string(s: &str) -> (r: String)
    ensures
        r@ == s@,
{
    s.to_owned()
}

/// The first physical position of a used entry whose record is named
/// `name`, or the store's length when no used entry matches.
pub open spec fn first_named(es: Seq<Entry<Server>>, name: Seq<char>) -> int
    decreases es.len(),
{
    if es.len() == 0 {
        0
    } else if es[0] is Used && used_value(es[0]).spec_name() == name {
        0
    } else {
        1 + first_named(es.drop_first(), name)
    }
}

/// `first_named` finds the first matching used entry, if any.
pub proof fn lemma_first_named(es: Seq<Entry<Server>>, name: Seq<char>)
    ensures
        0 <= first_named(es, name) <= es.len(),
        first_named(es, name) < es.len() ==> es[first_named(es, name)] is Used && used_value(
            es[first_named(es, name)],
        ).spec_name() == name,
        forall|j: int|
            0 <= j < first_named(es, name) ==> !((#[trigger] es[j]) is Used && used_value(
                es[j],
            ).spec_name() == name),
        first_named(es, name) == es.len() ==> forall|j: int|
            0 <= j < es.len() ==> !((#[trigger] es[j]) is Used && used_value(es[j]).spec_name()
                == name),
    decreases es.len(),
{
    if es.len() > 0 && !(es[0] is Used && used_value(es[0]).spec_name() == name) {
        lemma_first_named(es.drop_first(), name);
        assert forall|j: int| 0 <= j < first_named(es, name) implies !((#[trigger] es[j]) is Used
            && used_value(es[j]).spec_name() == name) by {
            if j > 0 {
                assert(es.drop_first()[j - 1] == es[j]);
            }
        }
        if first_named(es, name) == es.len() {
            assert forall|j: int| 0 <= j < es.len() implies !((#[trigger] es[j]) is Used
                && used_value(es[j]).spec_name() == name) by {
                if j > 0 {
                    assert(es.drop_first()[j - 1] == es[j]);
                }
            }
        }
    }
}

/// The position of the first identity for `user`, or the number of
/// identities when none matches.
pub open spec fn first_identity(ids: Seq<Identity>, user: Seq<char>) -> int
    decreases ids.len(),
{
    if ids.len() == 0 {
        0
    } else if ids[0].spec_user() == user {
        0
    } else {
        1 + first_identity(ids.drop_first(), user)
    }
}

/// `first_identity` finds the first identity carrying `user`, if any.
pub proof fn lemma_first_identity(ids: Seq<Identity>, user: Seq<char>)
    ensures
        0 <= first_identity(ids, user) <= ids.len(),
        first_identity(ids, user) < ids.len() ==> ids[first_identity(ids, user)].spec_user()
            == user,
        forall|j: int|
            0 <= j < first_identity(ids, user) ==> (#[trigger] ids[j]).spec_user() != user,
        first_identity(ids, user) == ids.len() ==> forall|j: int|
            0 <= j < ids.len() ==> (#[trigger] ids[j]).spec_user() != user,
    decreases ids.len(),
{
    if ids.len() > 0 && ids[0].spec_user() != user {
        lemma_first_identity(ids.drop_first(), user);
        assert forall|j: int| 0 <= j < first_identity(ids, user) implies (
        #[trigger] ids[j]).spec_user() != user by {
            if j > 0 {
                assert(ids.drop_first()[j - 1] == ids[j]);
            }
        }
        if first_identity(ids, user) == ids.len() {
            assert forall|j: int| 0 <= j < ids.len() implies (#[trigger] ids[j]).spec_user()
                != user by {
                if j > 0 {
                    assert(ids.drop_first()[j - 1] == ids[j]);
                }
            }
        }
    }
}

/// The physical positions of the used entries, in ascending order.
pub open spec fn used_keys(es: Seq<Entry<Server>>) -> Seq<int>
    decreases es.len(),
{
    if es.len() == 0 {
        Seq::empty()
    } else if es.last() is Used {
        used_keys(es.drop_last()).push(es.len() - 1)
    } else {
        used_keys(es.drop_last())
    }
}

/// The record's liveness flag after a probe session's results are merged
/// in: the mark under its resolved address when the session tracked it, the
/// old flag otherwise.
pub open spec fn merged_alive(s: Server, results: Seq<(Address, bool)>) -> bool {
    match s.spec_resolved() {
        Option::Some(a) => if has_addr(results, a) {
            results[addr_index(results, a)].1
        } else {
            s.spec_alive()
        },
        Option::None => s.spec_alive(),
    }
}

impl ServerManager {
    /// The group labels known to the registry, in first-use order.
    pub fn get_groups(&self) -> (r: Vec<&str>)
        ensures
            r@.len() == self.group_labels().len(),
            forall|i: int| 0 <= i < r@.len() ==> (#[trigger] r@[i])@ == self.group_labels()[i],
    {
        let n = self.groups.len();
        let mut r: Vec<&str> = Vec::new();
        let mut i: usize = 0;
        while i < n
            invariant
                n == self.groups@.len(),
                i <= n,
                r@.len() == i,
                forall|j: int| 0 <= j < i ==> (#[trigger] r@[j])@ == self.groups@[j].0@,
            decreases n - i,
        {
            r.push(self.groups[i].0.as_str());
            i = i + 1;
        }
        r
    }

    /// The records under `group`, in the order their keys were issued:
    /// exactly the keys of that group's list, each one a used slot.
    pub fn get_servers_by(&self, group: &str) -> (r: Vec<&Server>)
        requires
            self.wf(),
        ensures
            r@.len() == self.group_keys(group@).len(),
            forall|i: int|
                0 <= i < r@.len() ==> *(#[trigger] r@[i]) == used_value(
                    self@[self.group_keys(group@)[i] as int],
                ),
    {
        let ghost label = group@;
        let n = self.groups.len();
        proof {
            lemma_find_group(self.groups@, label);
        }
        let mut gi: usize = 0;
        while gi < n
            invariant
                self.wf(),
                n == self.groups@.len(),
                gi <= n,
                label == group@,
                forall|j: int| 0 <= j < gi ==> (#[trigger] self.groups@[j]).0@ != label,
            decreases n - gi,
        {
            if str_eq(self.groups[gi].0.as_str(), group) {
                proof {
                    lemma_find_group(self.groups@, label);
                    assert(find_group(self.groups@, label) == gi);
                }
                let keys = &self.groups[gi].1;
                let m = keys.len();
                let mut r: Vec<&Server> = Vec::new();
                let mut t: usize = 0;
                while t < m
                    invariant
                        self.wf(),
                        gi < self.groups@.len(),
                        keys == &self.groups@[gi as int].1,
                        m == keys@.len(),
                        t <= m,
                        find_group(self.groups@, label) == gi,
                        r@.len() == t,
                        forall|j: int|
                            0 <= j < t ==> *(#[trigger] r@[j]) == used_value(
                                self@[self.groups@[gi as int].1@[j] as int],
                            ),
                    decreases m - t,
                {
                    let k = keys[t];
                    proof {
                        assert(self.key_in_group_ok(gi as int, t as int));
                    }
                    r.push(self.servers.get(k));
                    t = t + 1;
                }
                return r;
            }
            gi = gi + 1;
        }
        proof {
            lemma_find_group(self.groups@, label);
            assert(self.group_keys(label) =~= Seq::<usize>::empty());
        }
        Vec::new()
    }

    /// The first used record named `name`, in physical slot order, or
    /// nothing; duplicate names are not disambiguated.
    pub fn get_server_by(&self, name: &str) -> (r: Option<&Server>)
        requires
            self.wf(),
        ensures
            match r {
                Option::Some(s) => first_named(self@, name@) < self@.len() && *s == used_value(
                    self@[first_named(self@, name@)],
                ),
                Option::None => first_named(self@, name@) == self@.len(),
            },
    {
        let n = self.servers.num_slots();
        let mut k: usize = 0;
        while k < n
            invariant
                self.wf(),
                n == self@.len(),
                k <= n,
                forall|j: int|
                    0 <= j < k ==> !((#[trigger] self@[j]) is Used && used_value(
                        self@[j],
                    ).spec_name() == name@),
            decreases n - k,
        {
            if self.servers.used_at(k) {
                let s = self.servers.get(k);
                if str_eq(s.name(), name) {
                    proof {
                        lemma_first_named(self@, name@);
                        assert(first_named(self@, name@) == k);
                    }
                    return Option::Some(s);
                }
            }
            k = k + 1;
        }
        proof {
            lemma_first_named(self@, name@);
        }
        Option::None
    }

    /// Every used record, in physical slot order.
    pub fn get_servers(&self) -> (r: Vec<&Server>)
        requires
            self.wf(),
        ensures
            r@.len() == used_keys(self@).len(),
            forall|i: int|
                0 <= i < r@.len() ==> *(#[trigger] r@[i]) == used_value(
                    self@[used_keys(self@)[i]],
                ),
    {
        let n = self.servers.num_slots();
        let mut r: Vec<&Server> = Vec::new();
        let mut k: usize = 0;
        while k < n
            invariant
                self.wf(),
                n == self@.len(),
                k <= n,
                r@.len() == used_keys(self@.take(k as int)).len(),
                forall|i: int|
                    0 <= i < r@.len() ==> *(#[trigger] r@[i]) == used_value(
                        self@[used_keys(self@.take(k as int))[i]],
                    ),
                forall|i: int|
                    0 <= i < used_keys(self@.take(k as int)).len() ==> 0 <= #[trigger] used_keys(
                        self@.take(k as int),
                    )[i] < k,
            decreases n - k,
        {
            let ghost prefix = self@.take(k as int);
            proof {
                assert(self@.take(k as int + 1).drop_last() =~= prefix);
                assert(self@.take(k as int + 1).last() == self@[k as int]);
            }
            if self.servers.used_at(k) {
                r.push(self.servers.get(k));
            }
            k = k + 1;
        }
        proof {
            assert(self@.take(n as int) =~= self@);
        }
        r
    }

    /// The first identity for `user`, or nothing.
    pub fn get_identity(&self, user: &str) -> (r: Option<&Identity>)
        ensures
            match r {
                Option::Some(id) => first_identity(self.spec_identities(), user@)
                    < self.spec_identities().len() && *id == self.spec_identities()[first_identity(
                    self.spec_identities(),
                    user@,
                )],
                Option::None => first_identity(self.spec_identities(), user@)
                    == self.spec_identities().len(),
            },
    {
        let n = self.identities.len();
        let mut i: usize = 0;
        while i < n
            invariant
                n == self.identities@.len(),
                i <= n,
                forall|j: int|
                    0 <= j < i ==> (#[trigger] self.identities@[j]).spec_user() != user@,
            decreases n - i,
        {
            if str_eq(self.identities[i].user(), user) {
                proof {
                    lemma_first_identity(self.identities@, user@);
                    assert(first_identity(self.identities@, user@) == i);
                }
                return Option::Some(&self.identities[i]);
            }
            i = i + 1;
        }
        proof {
            lemma_first_identity(self.identities@, user@);
        }
        Option::None
    }

    /// Updating one used slot's record without changing its group label
    /// keeps the registry invariant and the whole group index.
    proof fn lemma_wf_after_payload_update(&self, pre: &ServerManager, key: int)
        requires
            pre.wf(),
            self.groups@ == pre.groups@,
            self.identities@ == pre.identities@,
            self.servers.wf(),
            self.servers@.len() == pre.servers@.len(),
            forall|j: int|
                0 <= j < pre.servers@.len() && j != key ==> #[trigger] self.servers@[j]
                    == pre.servers@[j],
            0 <= key < pre.servers@.len(),
            pre.servers@[key] is Used,
            self.servers@[key] is Used,
            used_value(self.servers@[key]).spec_group() == used_value(
                pre.servers@[key],
            ).spec_group(),
        ensures
            self.wf(),
            forall|l: Seq<char>| #[trigger] self.group_keys(l) == pre.group_keys(l),
            self.group_labels() == pre.group_labels(),
    {
        let gs = self.groups@;
        assert forall|g: int, t: int|
            0 <= g < gs.len() && 0 <= t < gs[g].1@.len() implies #[trigger] self.key_in_group_ok(
            g,
            t,
        ) by {
            assert(pre.key_in_group_ok(g, t));
            let k = gs[g].1@[t] as int;
            if k != key {
                assert(self.servers@[k] == pre.servers@[k]);
            }
        }
        assert forall|k: int|
            0 <= k < self.servers@.len() && (#[trigger] self.servers@[k]) is Used implies self
            .used_key_indexed(k) by {
            if k != key {
                assert(self.servers@[k] == pre.servers@[k]);
            }
            assert(pre.used_key_indexed(k));
        }
        assert(self.group_labels() =~= pre.group_labels());
    }

    /// Record the resolved address of the host under `key`; nothing else of
    /// the record or the registry changes.
    pub fn set_resolved(&mut self, key: usize, addr: Address)
        requires
            old(self).wf(),
            key < old(self)@.len(),
            old(self)@[key as int] is Used,
        ensures
            final(self).wf(),
            final(self)@.len() == old(self)@.len(),
            forall|j: int|
                0 <= j < old(self)@.len() && j != key ==> #[trigger] final(self)@[j] == old(self)@[j],
            final(self)@[key as int] is Used,
            used_value(final(self)@[key as int]).same_inventory(
                &used_value(old(self)@[key as int]),
            ),
            used_value(final(self)@[key as int]).spec_resolved() == Option::Some(addr),
            used_value(final(self)@[key as int]).spec_alive() == used_value(
                old(self)@[key as int],
            ).spec_alive(),
            forall|l: Seq<char>| #[trigger] final(self).group_keys(l) == old(self).group_keys(l),
            final(self).group_labels() == old(self).group_labels(),
            final(self).spec_identities() == old(self).spec_identities(),
            final(self).next_key() == old(self).next_key(),
    {
        let m = self.servers.get_mut(key);
        m.resolved = Option::Some(addr);
        proof {
            self.lemma_wf_after_payload_update(old(self), key as int);
        }
    }

    /// Merge a probe session's results into the registry: every used record
    /// whose resolved address the session tracked takes that address's
    /// liveness mark; every other record, and everything else about the
    /// registry, is untouched.
    pub fn merge_liveness(&mut self, results: &Vec<(Address, bool)>)
        requires
            old(self).wf(),
        ensures
            final(self).wf(),
            final(self)@.len() == old(self)@.len(),
            forall|k: int|
                0 <= k < old(self)@.len() && old(self)@[k] is Empty ==> #[trigger] final(self)@[k] == old(self)@[k],
            forall|k: int|
                0 <= k < old(self)@.len() && old(self)@[k] is Used ==> {
                    &&& (#[trigger] final(self)@[k]) is Used
                    &&& used_value(final(self)@[k]).same_inventory(&used_value(old(self)@[k]))
                    &&& used_value(final(self)@[k]).spec_resolved() == used_value(
                        old(self)@[k],
                    ).spec_resolved()
                    &&& used_value(final(self)@[k]).spec_alive() == merged_alive(
                        used_value(old(self)@[k]),
                        results@,
                    )
                },
            forall|l: Seq<char>| #[trigger] final(self).group_keys(l) == old(self).group_keys(l),
            final(self).group_labels() == old(self).group_labels(),
            final(self).spec_identities() == old(self).spec_identities(),
            final(self).next_key() == old(self).next_key(),
    {
        let n = self.servers.num_slots();
        let mut k: usize = 0;
        while k < n
            invariant
                old(self).wf(),
                self.wf(),
                n == old(self)@.len(),
                self@.len() == n,
                k <= n,
                forall|j: int| k <= j < n ==> #[trigger] self@[j] == old(self)@[j],
                forall|j: int|
                    0 <= j < k && old(self)@[j] is Empty ==> #[trigger] self@[j] == old(self)@[j],
                forall|j: int|
                    0 <= j < k && old(self)@[j] is Used ==> {
                        &&& (#[trigger] self@[j]) is Used
                        &&& used_value(self@[j]).same_inventory(&used_value(old(self)@[j]))
                        &&& used_value(self@[j]).spec_resolved() == used_value(
                            old(self)@[j],
                        ).spec_resolved()
                        &&& used_value(self@[j]).spec_alive() == merged_alive(
                            used_value(old(self)@[j]),
                            results@,
                        )
                    },
                forall|l: Seq<char>| #[trigger] self.group_keys(l) == old(self).group_keys(l),
                self.group_labels() == old(self).group_labels(),
                self.spec_identities() == old(self).spec_identities(),
                self.next_key() == old(self).next_key(),
            decreases n - k,
        {
            if self.servers.used_at(k) {
                let res = self.servers.get(k).resolved;
                match res {
                    Option::Some(a) => {
                        match lookup_mark(results, a) {
                            Option::Some(b) => {
                                let ghost snap = *self;
                                let m = self.servers.get_mut(k);
                                m.alive = b;
                                proof {
                                    self.lemma_wf_after_payload_update(&snap, k as int);
                                }
                            },
                            Option::None => {},
                        }
                    },
                    Option::None => {},
                }
            }
            k = k + 1;
        }
    }

    /// Law of the group index: in a well-formed registry, a key stands in
    /// group `label`'s list exactly when its slot is used and its record
    /// carries that group label — and it stands there only once.
    pub proof fn lemma_group_index_exact(&self, label: Seq<char>)
        requires
            self.wf(),
        ensures
            forall|t: int|
                0 <= t < self.group_keys(label).len() ==> {
                    let k = #[trigger] self.group_keys(label)[t] as int;
                    &&& 0 <= k < self@.len()
                    &&& self@[k] is Used
                    &&& used_value(self@[k]).spec_group() == label
                },
            forall|k: int|
                0 <= k < self@.len() && (#[trigger] self@[k]) is Used && used_value(
                    self@[k],
                ).spec_group() == label ==> self.group_keys(label).contains(k as usize),
            forall|t1: int, t2: int|
                0 <= t1 < t2 < self.group_keys(label).len() ==> self.group_keys(label)[t1]
                    != self.group_keys(label)[t2],
    {
        let gs = self.groups@;
        let gi = find_group(gs, label);
        lemma_find_group(gs, label);
        assert forall|t: int| 0 <= t < self.group_keys(label).len() implies {
            let k = #[trigger] self.group_keys(label)[t] as int;
            &&& 0 <= k < self@.len()
            &&& self@[k] is Used
            &&& used_value(self@[k]).spec_group() == label
        } by {
            assert(self.key_in_group_ok(gi, t));
        }
        assert forall|k: int|
            0 <= k < self@.len() && (#[trigger] self@[k]) is Used && used_value(
                self@[k],
            ).spec_group() == label implies self.group_keys(label).contains(k as usize) by {
            assert(self.used_key_indexed(k));
        }
    }
}

} // verus!
