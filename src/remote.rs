//! What the store reads from the remote side of a pull or a push.
use vstd::prelude::*;

use crate::error::StoreError;
use vstd::string::StrSliceExecFns;
use vstd::string::StringExecFns;

verus! {

/// The position of the first '@' in `s`, or its length if there is none.
pub open spec fn find_at(s: Seq<char>) -> int
    decreases s.len(),
{
    if s.len() == 0 {
        0
    } else if s[0] == '@' {
        0
    } else {
        1 + find_at(s.drop_first())
    }
}

pub proof fn lemma_find_at(s: Seq<char>, i: int)
    requires
        0 <= i <= s.len(),
        forall|k: int| 0 <= k < i ==> s[k] != '@',
        i == s.len() || s[i] == '@',
    ensures
        find_at(s) == i,
    decreases i,
{
    if i > 0 {
        lemma_find_at(s.drop_first(), i - 1);
    }
}

/// The user of an address `user@host`: what precedes the first '@'.
pub open spec fn user_of(address: Seq<char>) -> Seq<char> {
    address.take(find_at(address))
}

/// The host and port of an address `user@host`: what follows the first '@'
/// up to the next one, then ':' and the port, 22 unless one is given.
pub open spec fn host_of(address: Seq<char>, port: Option<Seq<char>>) -> Seq<char> {
    let rest = address.skip(find_at(address) + 1);
    let p = match port {
        Some(p) => p,
        None => seq!['2', '2'],
    };
    rest.take(find_at(rest)) + seq![':'] + p
}

/// The position of the first '@' in `s`, or its length.
fn at_position(s: &str) -> (r: usize)
    ensures
        r as int == find_at(s@),
        r as int <= s@.len(),
{
    let n = s.unicode_len();
    let mut i: usize = 0;
    while i < n && s.get_char(i) != '@'
        invariant
            0 <= i <= n,
            n == s@.len(),
            forall|k: int| 0 <= k < i ==> s@[k] != '@',
        decreases n - i,
    {
        i = i + 1;
    }
    proof {
        lemma_find_at(s@, i as int);
    }
    i
}

/// The user and the `host:port` to log in to for an address `user@host`.
pub fn login_target(address: &str, port: &Option<String>) -> (r: Result<(String, String), StoreError>)
    ensures
        r is Ok <==> find_at(address@) < address@.len(),
        r is Ok ==> r->Ok_0.0@ == user_of(address@),
        r is Ok ==> r->Ok_0.1@ == host_of(
            address@,
            match port {
                Some(p) => Some(p@),
                None => None,
            },
        ),
        r is Err ==> r->Err_0 == StoreError::InvalidAddress,
{
    let n = address.unicode_len();
    let a = at_position(address);
    if a >= n {
        return Err(StoreError::InvalidAddress);
    }
    let user = address.substring_char(0, a).to_owned();
    let rest = address.substring_char(a + 1, n);
    let b = at_position(rest);
    let mut host = rest.substring_char(0, b).to_owned();
    host.append(":");
    match port {
        Some(p) => host.append(p.as_str()),
        None => host.append("22"),
    }
    proof {
        reveal_strlit(":");
        reveal_strlit("22");
        assert(rest@ =~= address@.skip(a + 1));
    }
    assert(host@ =~= host_of(
        address@,
        match port {
            Some(p) => Some(p@),
            None => None,
        },
    ));
    Ok((user, host))
}

/// Whether a key occurs in a list of pairs.
pub open spec fn has_key(pairs: Seq<(String, String)>, key: Seq<char>) -> bool {
    exists|i: int| 0 <= i < pairs.len() && #[trigger] pairs[i].0@ == key
}

/// `i` is the first position of `key` in `pairs`.
pub open spec fn first_key_at(pairs: Seq<(String, String)>, key: Seq<char>, i: int) -> bool {
    &&& 0 <= i < pairs.len()
    &&& pairs[i].0@ == key
    &&& forall|k: int| 0 <= k < i ==> #[trigger] pairs[k].0@ != key
}

/// The value of the first pair whose key is `key`.
fn lookup(pairs: &Vec<(String, String)>, key: &str) -> (r: Option<String>)
    ensures
        r is Some <==> has_key(pairs@, key@),
        r is Some ==> exists|i: int| first_key_at(pairs@, key@, i) && r->Some_0@ == pairs@[i].1@,
{
    let target = key.to_owned();
    let mut i: usize = 0;
    while i < pairs.len()
        invariant
            0 <= i <= pairs@.len(),
            target@ == key@,
            forall|k: int| 0 <= k < i ==> #[trigger] pairs@[k].0@ != key@,
        decreases pairs.len() - i,
    {
        if pairs[i].0 == target {
            assert(first_key_at(pairs@, key@, i as int));
            return Some(pairs[i].1.clone());
        }
        i = i + 1;
    }
    None
}

/// The remote config file and blob directory, from the pairs that the
/// remote store's `info` gives.
pub fn remote_paths(info: &Vec<(String, String)>) -> (r: Result<(String, String), StoreError>)
    ensures
        r is Ok <==> has_key(info@, "config"@) && has_key(info@, "storage"@),
        r is Ok ==> exists|i: int|
            first_key_at(info@, "config"@, i) && r->Ok_0.0@ == info@[i].1@,
        r is Ok ==> exists|i: int|
            first_key_at(info@, "storage"@, i) && r->Ok_0.1@ == info@[i].1@,
        r is Err ==> r->Err_0 == StoreError::RemoteInfoError,
{
    let config = lookup(info, "config");
    let storage = lookup(info, "storage");
    match (config, storage) {
        (Some(c), Some(s)) => Ok((c, s)),
        _ => Err(StoreError::RemoteInfoError),
    }
}

/// Whitespace removed from both ends of a string, as `str::trim` does it.
pub uninterp spec fn trim_of(s: Seq<char>) -> Seq<char>;

/// Relies on `str::trim`: its result depends on the characters alone.
#[verifier::external_body]
fn trimmed(s: &str) -> (r: &str)
    ensures
        r@ == trim_of(s@),
{
    s.trim()
}

/// Whether a trimmed reply of the presence check says the tool is there.
pub fn is_present_flag(t: &str) -> (r: bool)
    ensures
        r == (t@ == "0"@),
{
    proof {
        reveal_strlit("0");
    }
    let n = t.unicode_len();
    if n != 1 {
        return false;
    }
    let c = t.get_char(0);
    assert(c == '0' ==> t@ =~= "0"@);
    c == '0'
}

/// Whether the reply of the remote presence check says the tool is there.
pub fn remote_has_hbx(reply: &str) -> (r: bool)
    ensures
        r == (trim_of(reply@) == "0"@),
{
    is_present_flag(trimmed(reply))
}

/// Decides how a pull or a push goes on, given whether the remote host has
/// the tool: `Ok(false)` when it has, `Ok(true)` when it has not and it is
/// to be installed first, else `RemoteNotInstalled`.
pub fn remote_ready(present: bool, install: bool) -> (r: Result<bool, StoreError>)
    ensures
        present ==> r == Ok::<bool, StoreError>(false),
        !present && install ==> r == Ok::<bool, StoreError>(true),
        !present && !install ==> r == Err::<bool, StoreError>(StoreError::RemoteNotInstalled),
{
    if present {
        Ok(false)
    } else if install {
        Ok(true)
    } else {
        Err(StoreError::RemoteNotInstalled)
    }
}

} // verus!
