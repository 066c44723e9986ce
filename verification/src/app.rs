//! Deciding the run mode from the command line's plain values. Reading the
//! command line itself is argument-parsing glue outside the library; it
//! hands in whether the list flag is set, the chosen output format, and the
//! two positional arguments.

use vstd::prelude::*;
use vstd::string::StringSliceAdditionalSpecFns;
use vstd::utf8::{encode_utf8_valid_utf8, is_char_boundary, valid_utf8};
use crate::process::Transfer;

verus! {

/// How a listing is rendered.
pub enum Format {
    Pretty,
    Plain,
}

/// What one invocation does: list hosts (of one group, or all), open an ssh
/// connection, run an scp transfer, or nothing recognisable.
pub enum RunMode<'a> {
    List(Option<&'a str>, Format),
    Ssh(&'a str),
    Scp(&'a str, Transfer<'a>),
    Unknown,
}

/// The position of the first colon among the bytes, or their number.
pub open spec fn colon_at(b: Seq<u8>) -> int
    decreases b.len(),
{
    if b.len() == 0 {
        0
    } else if b[0] == 58u8 {
        0
    } else {
        1 + colon_at(b.drop_first())
    }
}

/// `colon_at` finds the first colon, if any.
pub proof fn lemma_colon_at(b: Seq<u8>)
    ensures
        0 <= colon_at(b) <= b.len(),
        colon_at(b) < b.len() ==> b[colon_at(b)] == 58u8,
        forall|j: int| 0 <= j < colon_at(b) ==> b[j] != 58u8,
        colon_at(b) == b.len() ==> forall|j: int| 0 <= j < b.len() ==> b[j] != 58u8,
    decreases b.len(),
{
    if b.len() > 0 && b[0] != 58u8 {
        lemma_colon_at(b.drop_first());
        assert forall|j: int| 0 <= j < colon_at(b) implies b[j] != 58u8 by {
            if j > 0 {
                assert(b.drop_first()[j - 1] == b[j]);
            }
        }
        if colon_at(b) == b.len() {
            assert forall|j: int| 0 <= j < b.len() implies b[j] != 58u8 by {
                if j > 0 {
                    assert(b.drop_first()[j - 1] == b[j]);
                }
            }
        }
    }
}

/// How a host argument splits on colons: nothing without a colon; with one,
/// the text before the first colon and the text between the first and the
/// second (or the end) — the argument's first two colon-separated fields.
pub open spec fn split_parts(b: Seq<u8>) -> Option<(Seq<u8>, Seq<u8>)> {
    let c = colon_at(b);
    if c == b.len() {
        Option::None
    } else {
        let rest = b.skip(c + 1);
        Option::Some((b.take(c), rest.take(colon_at(rest))))
    }
}

/// In valid UTF-8, a position holding an ASCII byte, or the end, is a
/// character boundary.
proof fn lemma_ascii_boundary(bytes: Seq<u8>, i: int)
    requires
        valid_utf8(bytes),
        0 <= i <= bytes.len(),
        i < bytes.len() ==> bytes[i] < 128,
    ensures
        is_char_boundary(bytes, i),
    decreases i,
{
    vstd::utf8::is_char_boundary_start_end_of_seq(bytes);
    if i > 0 {
        let l = vstd::utf8::length_of_first_scalar(bytes);
        assert(vstd::utf8::valid_first_scalar(bytes));
        assert(1 <= l <= 4);
        if i < l {
            assert(vstd::utf8::is_continuation_byte(bytes[i]));
            assert(false);
        } else {
            let rest = vstd::utf8::pop_first_scalar(bytes);
            assert(rest =~= bytes.skip(l));
            if i - l < rest.len() {
                assert(rest[i - l] == bytes[i]);
            }
            lemma_ascii_boundary(rest, i - l);
        }
    }
}

/// In valid UTF-8 beginning with an ASCII byte, position 1 is a character
/// boundary: the first character's encoding is one byte long.
proof fn lemma_boundary_after_ascii(bytes: Seq<u8>)
    requires
        valid_utf8(bytes),
        bytes.len() >= 1,
        bytes[0] < 128,
    ensures
        is_char_boundary(bytes, 1),
{
    assert(vstd::utf8::valid_first_scalar(bytes));
    assert(vstd::utf8::length_of_first_scalar(bytes) == 1);
    let rest = vstd::utf8::pop_first_scalar(bytes);
    assert(is_char_boundary(rest, 0));
}

/// Find the first colon in a string's bytes.
fn find_colon(s: &str) -> (c: usize)
    ensures
        c as int == colon_at(s.spec_bytes()),
{
    let b = s.as_bytes();
    let n = b.len();
    proof {
        lemma_colon_at(s.spec_bytes());
    }
    let mut i: usize = 0;
    while i < n
        invariant
            n == b@.len(),
            b@ == s.spec_bytes(),
            i <= n,
            forall|j: int| 0 <= j < i ==> b@[j] != 58u8,
        decreases n - i,
    {
        if b[i] == 58u8 {
            proof {
                lemma_colon_at(s.spec_bytes());
                assert(colon_at(s.spec_bytes()) == i);
            }
            return i;
        }
        i = i + 1;
    }
    proof {
        lemma_colon_at(s.spec_bytes());
    }
    n
}

/// Split a host argument on its colons: the text before the first colon
/// and the text between the first and the second (or the end); nothing
/// when the argument has no colon.
pub fn split_host_arg(s: &str) -> (r: Option<(&str, &str)>)
    ensures
        match r {
            Option::Some(p) => split_parts(s.spec_bytes()) == Option::Some(
                (p.0.spec_bytes(), p.1.spec_bytes()),
            ),
            Option::None => split_parts(s.spec_bytes()) is None,
        },
{
    let sb = s.as_bytes();
    let n = sb.len();
    let c = find_colon(s);
    if c == n {
        return Option::None;
    }
    proof {
        encode_utf8_valid_utf8(s@);
        lemma_colon_at(s.spec_bytes());
        lemma_ascii_boundary(s.spec_bytes(), c as int);
    }
    let (head, tail) = s.split_at(c);
    proof {
        encode_utf8_valid_utf8(tail@);
        assert(tail.spec_bytes()[0] == 58u8);
        lemma_boundary_after_ascii(tail.spec_bytes());
    }
    let (_, rest) = tail.split_at(1);
    proof {
        assert(rest.spec_bytes() =~= s.spec_bytes().skip(c as int + 1));
    }
    let c2 = find_colon(rest);
    let rest_n = rest.as_bytes().len();
    if c2 == rest_n {
        proof {
            assert(rest.spec_bytes().take(colon_at(rest.spec_bytes())) =~= rest.spec_bytes());
        }
        return Option::Some((head, rest));
    }
    proof {
        encode_utf8_valid_utf8(rest@);
        lemma_colon_at(rest.spec_bytes());
        lemma_ascii_boundary(rest.spec_bytes(), c2 as int);
    }
    let (part, _) = rest.split_at(c2);
    Option::Some((head, part))
}

/// Decide the run mode: the list flag wins; one positional argument means
/// ssh; two mean scp, with the remote side the one carrying a colon (the left one
/// checked first) and the path the text between its first two colons;
/// anything else is unknown.
pub fn run_mode<'a>(
    list: bool,
    pretty: bool,
    host_or_group: Option<&'a str>,
    to_or_from: Option<&'a str>,
) -> (m: RunMode<'a>)
    ensures
        list ==> (m matches RunMode::List(g, f) && g == host_or_group && (f is Pretty
            <==> pretty)),
        !list ==> (match (host_or_group, to_or_from) {
            (Option::None, _) => m is Unknown,
            (Option::Some(h), Option::None) => m matches RunMode::Ssh(h2) && h2@ == h@,
            (Option::Some(lhalf), Option::Some(rhalf)) => (match split_parts(
                lhalf.spec_bytes(),
            ) {
                Option::Some(lp) => {
                    &&& m matches RunMode::Scp(h2, t)
                    &&& h2.spec_bytes() == lp.0
                    &&& (t matches Transfer::FromHost { from, to } && from.spec_bytes() == lp.1
                        && to@ == rhalf@)
                },
                Option::None => (match split_parts(rhalf.spec_bytes()) {
                    Option::Some(rp) => {
                        &&& m matches RunMode::Scp(h2, t)
                        &&& h2.spec_bytes() == rp.0
                        &&& (t matches Transfer::ToHost { from, to } && from@ == lhalf@
                            && to.spec_bytes() == rp.1)
                    },
                    Option::None => m is Unknown,
                }),
            }),
        }),
{
    if list {
        let format = if pretty {
            Format::Pretty
        } else {
            Format::Plain
        };
        return RunMode::List(host_or_group, format);
    }
    let lhalf = match host_or_group {
        Option::Some(h) => h,
        Option::None => {
            return RunMode::Unknown;
        },
    };
    let rhalf = match to_or_from {
        Option::Some(t) => t,
        Option::None => {
            return RunMode::Ssh(lhalf);
        },
    };
    match split_host_arg(lhalf) {
        Option::Some(p) => {
            return RunMode::Scp(p.0, Transfer::FromHost { from: p.1, to: rhalf });
        },
        Option::None => {},
    }
    match split_host_arg(rhalf) {
        Option::Some(p) => {
            return RunMode::Scp(p.0, Transfer::ToHost { from: lhalf, to: p.1 });
        },
        Option::None => {},
    }
    RunMode::Unknown
}

} // verus!
