//! Building the argument lists for the ssh and scp processes: pure string
//! work with exact contracts. Spawning the processes themselves is outside
//! the library.

use vstd::prelude::*;
use crate::server::{Identity, Server};
use vstd::string::StringExecFns;

verus! {

/// Which program a process runs.
pub enum ProcessMode {
    Ssh,
    Scp,
}

/// A file transfer: from the host to a local path, or the other way round.
pub enum Transfer<'a> {
    FromHost { from: &'a str, to: &'a str },
    ToHost { from: &'a str, to: &'a str },
}

/// The program a mode runs.
pub fn mode_program(mode: &ProcessMode) -> (r: &'static str)
    ensures
        mode is Ssh ==> r@ == seq!['s', 's', 'h'],
        mode is Scp ==> r@ == seq!['s', 'c', 'p'],
{
    match mode {
        ProcessMode::Ssh => {
            proof {
                reveal_strlit("ssh");
                assert("ssh"@ =~= seq!['s', 's', 'h']);
            }
            "ssh"
        },
        ProcessMode::Scp => {
            proof {
                reveal_strlit("scp");
                assert("scp"@ =~= seq!['s', 'c', 'p']);
            }
            "scp"
        },
    }
}

/// The identity's leading arguments: `-i` and the key file under key
/// authentication, nothing under password authentication.
pub open spec fn spec_key_args(id: Identity) -> Seq<Seq<char>> {
    match id.spec_key() {
        Option::Some(k) => seq![seq!['-', 'i'], k],
        Option::None => Seq::empty(),
    }
}

/// `user@host`, as ssh and scp take their target.
pub open spec fn spec_dsn(user: Seq<char>, host: Seq<char>) -> Seq<char> {
    user + seq!['@'] + host
}

/// The argument list of an ssh connection: the key arguments, then
/// `user@hostname`.
pub open spec fn spec_ssh_args(server: Server, id: Identity) -> Seq<Seq<char>> {
    spec_key_args(id).push(spec_dsn(id.spec_user(), server.hostname@))
}

/// The argument list of an scp transfer: the key arguments, then source and
/// destination, the remote one written `user@hostname:path`.
pub open spec fn spec_scp_args(server: Server, id: Identity, from: Seq<char>, to: Seq<char>, from_host: bool) -> Seq<
    Seq<char>,
> {
    if from_host {
        spec_key_args(id) + seq![
            spec_dsn(id.spec_user(), server.hostname@ + seq![':'] + from),
            to,
        ]
    } else {
        spec_key_args(id) + seq![
            from,
            spec_dsn(id.spec_user(), server.hostname@ + seq![':'] + to),
        ]
    }
}

/// Push the identity's key arguments, if any.
fn push_key_args(args: &mut Vec<String>, identity: &Identity)
    ensures
        final(args)@.map_values(|s: String| s@) == old(args)@.map_values(|s: String| s@)
            + spec_key_args(*identity),
{
    let ghost pre = args@;
    match identity.method() {
        crate::server::AuthMethod::Key(f) => {
            proof {
                reveal_strlit("-i");
                assert("-i"@ =~= seq!['-', 'i']);
            }
            args.push(String::from_str("-i"));
            args.push(f.to_owned());
            proof {
                assert(args@.map_values(|s: String| s@) =~= pre.map_values(|s: String| s@)
                    + spec_key_args(*identity));
            }
        },
        crate::server::AuthMethod::Password => {
            proof {
                assert(args@.map_values(|s: String| s@) =~= pre.map_values(|s: String| s@)
                    + spec_key_args(*identity));
            }
        },
    }
}

/// `user@host` as an owned string.
fn make_dsn(user: &str, host: &str) -> (r: String)
    ensures
        r@ == spec_dsn(user@, host@),
{
    proof {
        reveal_strlit("@");
        assert("@"@ =~= seq!['@']);
    }
    let mut r = user.to_owned();
    r.append("@");
    r.append(host);
    r
}

/// `host:path` as an owned string.
fn make_host_path(host: &str, path: &str) -> (r: String)
    ensures
        r@ == host@ + seq![':'] + path@,
{
    proof {
        reveal_strlit(":");
        assert(":"@ =~= seq![':']);
    }
    let mut r = host.to_owned();
    r.append(":");
    r.append(path);
    r
}

/// The arguments of an ssh connection to `server` as `identity`.
pub fn ssh_args(server: &Server, identity: &Identity) -> (args: Vec<String>)
    ensures
        args@.map_values(|s: String| s@) == spec_ssh_args(*server, *identity),
{
    let mut args: Vec<String> = Vec::new();
    proof {
        assert(args@.map_values(|s: String| s@) =~= Seq::<Seq<char>>::empty());
    }
    push_key_args(&mut args, identity);
    let ghost mid = args@;
    let dsn = make_dsn(identity.user(), server.hostname.as_str());
    args.push(dsn);
    proof {
        assert(args@.map_values(|s: String| s@) =~= mid.map_values(|s: String| s@).push(
            spec_dsn(identity.spec_user(), server.hostname@),
        ));
        assert(Seq::<Seq<char>>::empty() + spec_key_args(*identity) =~= spec_key_args(
            *identity,
        ));
    }
    args
}

/// The arguments of an scp transfer with `server` as `identity`: for a
/// transfer from the host, the remote source then the local destination;
/// for one to the host, the local source then the remote destination.
pub fn scp_args(server: &Server, identity: &Identity, transfer: Transfer) -> (args: Vec<String>)
    ensures
        (transfer matches Transfer::FromHost { from, to } ==> args@.map_values(|s: String| s@)
            == spec_scp_args(*server, *identity, from@, to@, true)),
        (transfer matches Transfer::ToHost { from, to } ==> args@.map_values(|s: String| s@)
            == spec_scp_args(*server, *identity, from@, to@, false)),
{
    let mut args: Vec<String> = Vec::new();
    proof {
        assert(args@.map_values(|s: String| s@) =~= Seq::<Seq<char>>::empty());
    }
    push_key_args(&mut args, identity);
    let ghost mid = args@;
    match transfer {
        Transfer::FromHost { from, to } => {
            let host_file = make_host_path(server.hostname.as_str(), from);
            let dsn = make_dsn(identity.user(), host_file.as_str());
            args.push(dsn);
            args.push(to.to_owned());
            proof {
                assert(args@.map_values(|s: String| s@) =~= mid.map_values(|s: String| s@)
                    + seq![
                    spec_dsn(identity.spec_user(), server.hostname@ + seq![':'] + from@),
                    to@,
                ]);
                assert(Seq::<Seq<char>>::empty() + spec_key_args(*identity) =~= spec_key_args(
                    *identity,
                ));
            }
        },
        Transfer::ToHost { from, to } => {
            let host_file = make_host_path(server.hostname.as_str(), to);
            let dsn = make_dsn(identity.user(), host_file.as_str());
            args.push(from.to_owned());
            args.push(dsn);
            proof {
                assert(args@.map_values(|s: String| s@) =~= mid.map_values(|s: String| s@)
                    + seq![
                    from@,
                    spec_dsn(identity.spec_user(), server.hostname@ + seq![':'] + to@),
                ]);
                assert(Seq::<Seq<char>>::empty() + spec_key_args(*identity) =~= spec_key_args(
                    *identity,
                ));
            }
        },
    }
    args
}

} // verus!
