//! The configuration as one value: the host registry, the credential store,
//! and the optional editor. Reading and parsing the configuration file is
//! I/O and lives outside the library; a loader builds this value through
//! the registry's and the store's verified constructors.

use vstd::prelude::*;
use crate::auth::{Identity, ServerManager};
use crate::text::str_eq;

verus! {

/// Why a configuration could not be loaded: the file could not be read, or
/// its contents could not be parsed.
pub enum ConfigError {
    IoError(String),
    ParseError(String),
}

impl ConfigError {
    /// The error's text.
    pub closed spec fn spec_message(&self) -> Seq<char> {
        match self {
            ConfigError::IoError(s) => s@,
            ConfigError::ParseError(s) => s@,
        }
    }

    /// The error's text, for display.
    pub fn message(&self) -> (r: &str)
        ensures
            r@ == self.spec_message(),
    {
        match self {
            ConfigError::IoError(s) => s.as_str(),
            ConfigError::ParseError(s) => s.as_str(),
        }
    }
}

/// The position of the first account for `user`, or the store's length.
pub open spec fn first_account(accounts: Seq<Identity>, user: Seq<char>) -> int
    decreases accounts.len(),
{
    if accounts.len() == 0 {
        0
    } else if accounts[0].spec_user() == user {
        0
    } else {
        1 + first_account(accounts.drop_first(), user)
    }
}

/// `first_account` finds the first account carrying `user`, if any.
pub proof fn lemma_first_account(accounts: Seq<Identity>, user: Seq<char>)
    ensures
        0 <= first_account(accounts, user) <= accounts.len(),
        first_account(accounts, user) < accounts.len() ==> accounts[first_account(
            accounts,
            user,
        )].spec_user() == user,
        forall|j: int|
            0 <= j < first_account(accounts, user) ==> (#[trigger] accounts[j]).spec_user()
                != user,
        first_account(accounts, user) == accounts.len() ==> forall|j: int|
            0 <= j < accounts.len() ==> (#[trigger] accounts[j]).spec_user() != user,
    decreases accounts.len(),
{
    if accounts.len() > 0 && accounts[0].spec_user() != user {
        lemma_first_account(accounts.drop_first(), user);
        assert forall|j: int| 0 <= j < first_account(accounts, user) implies (
        #[trigger] accounts[j]).spec_user() != user by {
            if j > 0 {
                assert(accounts.drop_first()[j - 1] == accounts[j]);
            }
        }
        if first_account(accounts, user) == accounts.len() {
            assert forall|j: int| 0 <= j < accounts.len() implies (
            #[trigger] accounts[j]).spec_user() != user by {
                if j > 0 {
                    assert(accounts.drop_first()[j - 1] == accounts[j]);
                }
            }
        }
    }
}

/// The credential store: the accounts a loader collected, in order.
pub struct CredentialManager {
    accounts: Vec<Identity>,
}

impl CredentialManager {
    /// The accounts, in the order they were added.
    pub closed spec fn spec_accounts(&self) -> Seq<Identity> {
        self.accounts@
    }

    /// An empty store.
    pub fn new() -> (m: CredentialManager)
        ensures
            m.spec_accounts() =~= Seq::<Identity>::empty(),
    {
        CredentialManager { accounts: Vec::new() }
    }

    /// Add an account.
    pub fn add(&mut self, account: Identity)
        ensures
            final(self).spec_accounts() == old(self).spec_accounts().push(account),
    {
        self.accounts.push(account);
    }

    /// The first account for `user`, or nothing.
    pub fn find(&self, user: &str) -> (r: Option<&Identity>)
        ensures
            match r {
                Option::Some(id) => first_account(self.spec_accounts(), user@)
                    < self.spec_accounts().len() && *id == self.spec_accounts()[first_account(
                    self.spec_accounts(),
                    user@,
                )],
                Option::None => first_account(self.spec_accounts(), user@)
                    == self.spec_accounts().len(),
            },
    {
        let n = self.accounts.len();
        let mut i: usize = 0;
        while i < n
            invariant
                n == self.accounts@.len(),
                i <= n,
                forall|j: int|
                    0 <= j < i ==> (#[trigger] self.accounts@[j]).spec_user() != user@,
            decreases n - i,
        {
            if str_eq(self.accounts[i].user(), user) {
                proof {
                    lemma_first_account(self.accounts@, user@);
                    assert(first_account(self.accounts@, user@) == i);
                }
                return Option::Some(&self.accounts[i]);
            }
            i = i + 1;
        }
        proof {
            lemma_first_account(self.accounts@, user@);
        }
        Option::None
    }
}

/// The loaded configuration: the registry, the credential store, and the
/// editor named in the file, if any.
pub struct Config {
    servers: ServerManager,
    credentials: CredentialManager,
    editor: Option<String>,
}

impl Config {
    pub closed spec fn spec_servers(&self) -> ServerManager {
        self.servers
    }

    pub closed spec fn spec_credentials(&self) -> CredentialManager {
        self.credentials
    }

    pub closed spec fn spec_editor(&self) -> Option<Seq<char>> {
        match self.editor {
            Option::Some(e) => Option::Some(e@),
            Option::None => Option::None,
        }
    }

    /// A configuration from its three parts.
    pub fn new(servers: ServerManager, credentials: CredentialManager, editor: Option<String>) -> (c:
        Config)
        ensures
            c.spec_servers() == servers,
            c.spec_credentials() == credentials,
            match editor {
                Option::Some(e) => c.spec_editor() == Option::Some(e@),
                Option::None => c.spec_editor() is None,
            },
    {
        Config { servers, credentials, editor }
    }

    /// The host registry.
    pub fn server_manager(&self) -> (r: &ServerManager)
        ensures
            *r == self.spec_servers(),
    {
        &self.servers
    }

    /// Both managers at once, mutably, for a loader that fills them in.
    pub fn get_managers(&mut self) -> (r: (&mut ServerManager, &mut CredentialManager))
        ensures
            *r.0 == old(self).spec_servers(),
            *r.1 == old(self).spec_credentials(),
            final(self).spec_servers() == *final(r.0),
            final(self).spec_credentials() == *final(r.1),
            final(self).spec_editor() == old(self).spec_editor(),
    {
        (&mut self.servers, &mut self.credentials)
    }

    /// The credential store.
    pub fn credential_manager(&self) -> (r: &CredentialManager)
        ensures
            *r == self.spec_credentials(),
    {
        &self.credentials
    }

    /// The editor named in the configuration, if any.
    pub fn editor(&self) -> (r: Option<&String>)
        ensures
            match r {
                Option::Some(e) => self.spec_editor() == Option::Some(e@),
                Option::None => self.spec_editor() is None,
            },
    {
        self.editor.as_ref()
    }
}

} // verus!
