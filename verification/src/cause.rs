//! Why a Host that is not `ok` did not work, inferred from ssh's stderr.
//!
//! This is the one place output text is consulted at all, and it never changes
//! a Host's status or the run's exit code.

use vstd::prelude::*;
use vstd::utf8::encode_utf8;

use crate::bytes::{
    holds_bytes, lemma_occurs_in_longer, lemma_occurs_later, lower, lowered, occurs, occurs_at,
    small,
};

verus! {

/// A best-effort explanation of a Host's failure.
#[derive(Debug, Clone, Copy, PartialEq, Eq, Structural)]
pub enum Cause {
    /// ssh could not authenticate, or refused the host key.
    Auth,
    /// ssh could not resolve the Host's name.
    Dns,
    /// ssh reached a name but could not open a connection.
    Connect,
}

/// Whether a wording stands in the text. The wordings are ASCII, so they are
/// looked for in the bytes themselves.
pub open spec fn says(text: Seq<u8>, wording: Seq<char>) -> bool {
    occurs(text, encode_utf8(wording))
}

/// What ssh says when it could not authenticate.
pub open spec fn says_auth(text: Seq<u8>) -> bool {
    ||| says(text, "permission denied"@)
    ||| says(text, "authentication failed"@)
    ||| says(text, "too many authentication failures"@)
    ||| says(text, "no supported authentication methods"@)
    ||| says(text, "host key verification failed"@)
    ||| says(text, "remote host identification has changed"@)
    ||| says(text, "no matching host key"@)
}

/// What ssh says when it could not resolve the name.
pub open spec fn says_dns(text: Seq<u8>) -> bool {
    ||| says(text, "could not resolve hostname"@)
    ||| says(text, "name or service not known"@)
    ||| says(text, "nodename nor servname provided"@)
    ||| says(text, "temporary failure in name resolution"@)
    ||| says(text, "no address associated with hostname"@)
}

/// What ssh says when it could not connect.
pub open spec fn says_connect(text: Seq<u8>) -> bool {
    ||| says(text, "connection refused"@)
    ||| says(text, "connection timed out"@)
    ||| says(text, "connection closed by"@)
    ||| says(text, "connection reset by"@)
    ||| says(text, "no route to host"@)
    ||| says(text, "network is unreachable"@)
    ||| says(text, "operation timed out"@)
    ||| says(text, "broken pipe"@)
}

/// The cause a stderr points to. Authentication is looked for first:
/// "Permission denied (publickey)" is the common case.
pub open spec fn inferred(stderr: Seq<u8>) -> Option<Cause> {
    let text = lowered(stderr);
    if says_auth(text) {
        Some(Cause::Auth)
    } else if says_dns(text) {
        Some(Cause::Dns)
    } else if says_connect(text) {
        Some(Cause::Connect)
    } else {
        None
    }
}

fn does_say(text: &[u8], wording: &str) -> (r: bool)
    requires
        wording@.len() > 0,
    ensures
        r == says(text@, wording@),
{
    proof {
        vstd::utf8::encode_utf8_first_scalar(wording@);
        reveal_with_fuel(encode_utf8, 2);
    }
    holds_bytes(text, wording.as_bytes())
}

fn does_say_auth(text: &[u8]) -> (r: bool)
    ensures
        r == says_auth(text@),
{
    proof {
        reveal_strlit("permission denied");
        reveal_strlit("authentication failed");
        reveal_strlit("too many authentication failures");
        reveal_strlit("no supported authentication methods");
        reveal_strlit("host key verification failed");
        reveal_strlit("remote host identification has changed");
        reveal_strlit("no matching host key");
    }
    does_say(text, "permission denied") || does_say(text, "authentication failed") || does_say(
        text,
        "too many authentication failures",
    ) || does_say(text, "no supported authentication methods") || does_say(
        text,
        "host key verification failed",
    ) || does_say(text, "remote host identification has changed") || does_say(
        text,
        "no matching host key",
    )
}

fn does_say_dns(text: &[u8]) -> (r: bool)
    ensures
        r == says_dns(text@),
{
    proof {
        reveal_strlit("could not resolve hostname");
        reveal_strlit("name or service not known");
        reveal_strlit("nodename nor servname provided");
        reveal_strlit("temporary failure in name resolution");
        reveal_strlit("no address associated with hostname");
    }
    does_say(text, "could not resolve hostname") || does_say(text, "name or service not known")
        || does_say(text, "nodename nor servname provided") || does_say(
        text,
        "temporary failure in name resolution",
    ) || does_say(text, "no address associated with hostname")
}

fn does_say_connect(text: &[u8]) -> (r: bool)
    ensures
        r == says_connect(text@),
{
    proof {
        reveal_strlit("connection refused");
        reveal_strlit("connection timed out");
        reveal_strlit("connection closed by");
        reveal_strlit("connection reset by");
        reveal_strlit("no route to host");
        reveal_strlit("network is unreachable");
        reveal_strlit("operation timed out");
        reveal_strlit("broken pipe");
    }
    does_say(text, "connection refused") || does_say(text, "connection timed out") || does_say(
        text,
        "connection closed by",
    ) || does_say(text, "connection reset by") || does_say(text, "no route to host") || does_say(
        text,
        "network is unreachable",
    ) || does_say(text, "operation timed out") || does_say(text, "broken pipe")
}

/// The word a report uses.
pub open spec fn cause_word(cause: Cause) -> Seq<char> {
    match cause {
        Cause::Auth => "auth"@,
        Cause::Dns => "dns"@,
        Cause::Connect => "connect"@,
    }
}

impl Cause {
    /// A short, stable word.
    pub fn as_str(self) -> (r: &'static str)
        ensures
            r@ == cause_word(self),
    {
        match self {
            Cause::Auth => "auth",
            Cause::Dns => "dns",
            Cause::Connect => "connect",
        }
    }

    /// Reads ssh's stderr and guesses. Returns `None` when nothing matches,
    /// which is the honest answer for a failure whose text says nothing useful.
    pub fn infer(stderr: &[u8]) -> (r: Option<Cause>)
        ensures
            r == inferred(stderr@),
    {
        let text = lower(stderr);
        if does_say_auth(text.as_slice()) {
            Some(Cause::Auth)
        } else if does_say_dns(text.as_slice()) {
            Some(Cause::Dns)
        } else if does_say_connect(text.as_slice()) {
            Some(Cause::Connect)
        } else {
            None
        }
    }
}

/// Capitals make no difference.
pub proof fn law_case_makes_no_difference(a: Seq<u8>, b: Seq<u8>)
    requires
        lowered(a) == lowered(b),
    ensures
        inferred(a) == inferred(b),
{
}

/// Where a cause stands in the order in which causes are looked for.
pub open spec fn cause_rank(cause: Cause) -> int {
    match cause {
        Cause::Auth => 0,
        Cause::Dns => 1,
        Cause::Connect => 2,
    }
}

/// A cause that was found stays found, as that one or as one that is looked for
/// earlier, whatever output stands before it and after it.
pub proof fn law_more_output_loses_no_cause(before: Seq<u8>, stderr: Seq<u8>, more: Seq<u8>)
    requires
        inferred(stderr) is Some,
    ensures
        inferred(before + stderr + more) is Some,
        cause_rank(inferred(before + stderr + more)->Some_0) <= cause_rank(
            inferred(stderr)->Some_0,
        ),
{
    let a = lowered(stderr);
    let all = lowered(before + stderr + more);
    assert(all == lowered(before) + a + lowered(more));
    assert forall|w: Seq<char>| #[trigger] says(a, w) implies says(all, w) by {
        lemma_occurs_later(lowered(before), a, encode_utf8(w));
        lemma_occurs_in_longer(lowered(before) + a, lowered(more), encode_utf8(w));
    }
    assert(says_auth(a) ==> says_auth(all)) by {
        assert(forall|w: Seq<char>| says(a, w) ==> #[trigger] says(all, w));
    }
    assert(says_dns(a) ==> says_dns(all)) by {
        assert(forall|w: Seq<char>| says(a, w) ==> #[trigger] says(all, w));
    }
    assert(says_connect(a) ==> says_connect(all)) by {
        assert(forall|w: Seq<char>| says(a, w) ==> #[trigger] says(all, w));
    }
}

/// Whether a wording stands somewhere in what was printed, in capitals or not.
pub open spec fn appears(printed: Seq<u8>, wording: Seq<char>) -> bool {
    exists|i: int| #[trigger] appears_at(printed, wording, i)
}

/// Whether a wording stands at this place, in capitals or not.
pub open spec fn appears_at(printed: Seq<u8>, wording: Seq<char>, i: int) -> bool {
    &&& 0 <= i
    &&& i + wording.len() <= printed.len()
    &&& forall|k: int|
        0 <= k < wording.len() ==> {
            let c = #[trigger] wording[k];
            printed[i + k] as int == c as int || ('a' <= c <= 'z' && printed[i + k] as int == c as int
                - 32)
        }
}

/// Whether one of the wordings stands somewhere in what was printed.
pub open spec fn any_appears(printed: Seq<u8>, wordings: Seq<Seq<char>>) -> bool {
    exists|j: int| 0 <= j < wordings.len() && appears(printed, #[trigger] wordings[j])
}

/// Wordings of an ssh that could not authenticate.
pub open spec fn auth_wordings() -> Seq<Seq<char>> {
    seq![
        "permission denied"@,
        "authentication failed"@,
        "too many authentication failures"@,
        "no supported authentication methods"@,
        "host key verification failed"@,
        "remote host identification has changed"@,
        "no matching host key"@,
    ]
}

/// Wordings of an ssh that could not resolve the name.
pub open spec fn dns_wordings() -> Seq<Seq<char>> {
    seq![
        "could not resolve hostname"@,
        "name or service not known"@,
        "nodename nor servname provided"@,
        "temporary failure in name resolution"@,
        "no address associated with hostname"@,
    ]
}

/// Wordings of an ssh that could not connect.
pub open spec fn connect_wordings() -> Seq<Seq<char>> {
    seq![
        "connection refused"@,
        "connection timed out"@,
        "connection closed by"@,
        "connection reset by"@,
        "no route to host"@,
        "network is unreachable"@,
        "operation timed out"@,
        "broken pipe"@,
    ]
}

spec fn is_small(wording: Seq<char>) -> bool {
    forall|k: int| 0 <= k < wording.len() ==> ('a' <= #[trigger] wording[k] <= 'z') || wording[k] == ' '
}

proof fn lemma_says_what_appears(printed: Seq<u8>, wording: Seq<char>)
    requires
        is_small(wording),
    ensures
        says(lowered(printed), wording) == appears(printed, wording),
{
    let text = lowered(printed);
    let needle = encode_utf8(wording);
    assert(vstd::utf8::is_ascii_chars(wording)) by {
        assert forall|k: int| 0 <= k < wording.len() implies '\0' <= #[trigger] wording[k]
            <= '\u{7f}' by {}
    }
    vstd::utf8::is_ascii_chars_encode_utf8(wording);
    assert forall|i: int| occurs_at(text, needle, i) == appears_at(printed, wording, i) by {
        if occurs_at(text, needle, i) {
            assert forall|k: int| 0 <= k < wording.len() implies {
                let c = #[trigger] wording[k];
                printed[i + k] as int == c as int || ('a' <= c <= 'z' && printed[i + k] as int
                    == c as int - 32)
            } by {
                assert(text.subrange(i, i + needle.len())[k] == needle[k]);
                assert(text[i + k] == small(printed[i + k]));
            }
        }
        if appears_at(printed, wording, i) {
            assert forall|k: int| 0 <= k < needle.len() implies text.subrange(
                i,
                i + needle.len(),
            )[k] == needle[k] by {
                let c = wording[k];
                assert(text[i + k] == small(printed[i + k]));
            }
            assert(text.subrange(i, i + needle.len()) =~= needle);
        }
    }
    if says(text, wording) {
        let i = choose|i: int| occurs_at(text, needle, i);
        assert(appears_at(printed, wording, i));
    }
    if appears(printed, wording) {
        let i = choose|i: int| #[trigger] appears_at(printed, wording, i);
        assert(occurs_at(text, needle, i));
    }
}

proof fn lemma_says_any(printed: Seq<u8>, wordings: Seq<Seq<char>>, n: int)
    requires
        0 <= n <= wordings.len(),
        forall|j: int| 0 <= j < wordings.len() ==> is_small(#[trigger] wordings[j]),
    ensures
        forall|j: int|
            0 <= j < n ==> says(lowered(printed), #[trigger] wordings[j]) == appears(
                printed,
                wordings[j],
            ),
    decreases n,
{
    if n > 0 {
        lemma_says_any(printed, wordings, n - 1);
        lemma_says_what_appears(printed, wordings[n - 1]);
    }
}

/// A cause is what ssh's own words say, wherever they stand and in whatever
/// case: that it could not authenticate; failing that, that it could not resolve
/// the name; failing that, that it could not connect. Where none of these words
/// is there, no cause is claimed.
pub proof fn law_a_cause_is_what_ssh_says(printed: Seq<u8>)
    ensures
        inferred(printed) == (if any_appears(printed, auth_wordings()) {
            Some(Cause::Auth)
        } else if any_appears(printed, dns_wordings()) {
            Some(Cause::Dns)
        } else if any_appears(printed, connect_wordings()) {
            Some(Cause::Connect)
        } else {
            None
        }),
{
    lemma_wordings_are_small();
    let text = lowered(printed);
    let auth = auth_wordings();
    lemma_says_any(printed, auth, 7);
    assert(says_auth(text) == any_appears(printed, auth)) by {
        if says_auth(text) {
            assert(says(text, auth[0]) || says(text, auth[1]) || says(text, auth[2]) || says(
                text,
                auth[3],
            ) || says(text, auth[4]) || says(text, auth[5]) || says(text, auth[6]));
        }
        if any_appears(printed, auth) {
            let j = choose|j: int| 0 <= j < auth.len() && appears(printed, #[trigger] auth[j]);
            assert(says(text, auth[j]));
        }
    }
    let dns = dns_wordings();
    lemma_says_any(printed, dns, 5);
    assert(says_dns(text) == any_appears(printed, dns)) by {
        if says_dns(text) {
            assert(says(text, dns[0]) || says(text, dns[1]) || says(text, dns[2]) || says(
                text,
                dns[3],
            ) || says(text, dns[4]));
        }
        if any_appears(printed, dns) {
            let j = choose|j: int| 0 <= j < dns.len() && appears(printed, #[trigger] dns[j]);
            assert(says(text, dns[j]));
        }
    }
    let connect = connect_wordings();
    lemma_says_any(printed, connect, 8);
    assert(says_connect(text) == any_appears(printed, connect)) by {
        if says_connect(text) {
            assert(says(text, connect[0]) || says(text, connect[1]) || says(text, connect[2])
                || says(text, connect[3]) || says(text, connect[4]) || says(text, connect[5])
                || says(text, connect[6]) || says(text, connect[7]));
        }
        if any_appears(printed, connect) {
            let j = choose|j: int|
                0 <= j < connect.len() && appears(printed, #[trigger] connect[j]);
            assert(says(text, connect[j]));
        }
    }
}

proof fn lemma_wordings_are_small()
    ensures
        forall|j: int| 0 <= j < auth_wordings().len() ==> is_small(#[trigger] auth_wordings()[j]),
        forall|j: int| 0 <= j < dns_wordings().len() ==> is_small(#[trigger] dns_wordings()[j]),
        forall|j: int|
            0 <= j < connect_wordings().len() ==> is_small(#[trigger] connect_wordings()[j]),
{
    reveal_strlit("permission denied");
    reveal_strlit("authentication failed");
    reveal_strlit("too many authentication failures");
    reveal_strlit("no supported authentication methods");
    reveal_strlit("host key verification failed");
    reveal_strlit("remote host identification has changed");
    reveal_strlit("no matching host key");
    reveal_strlit("could not resolve hostname");
    reveal_strlit("name or service not known");
    reveal_strlit("nodename nor servname provided");
    reveal_strlit("temporary failure in name resolution");
    reveal_strlit("no address associated with hostname");
    reveal_strlit("connection refused");
    reveal_strlit("connection timed out");
    reveal_strlit("connection closed by");
    reveal_strlit("connection reset by");
    reveal_strlit("no route to host");
    reveal_strlit("network is unreachable");
    reveal_strlit("operation timed out");
    reveal_strlit("broken pipe");
}

} // verus!
