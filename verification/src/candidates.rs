//! Calls to whichever node of a partition answers.
//!
//! A partition may be served at several addresses, and the list changes while
//! calls are made. A call is tried at one address after the other, or at all
//! of them at once; it fails only when every address has failed, and then the
//! error tells what each of them said.

use vstd::prelude::*;

use crate::node_addresses::NodeAddresses;
use crate::partition::PartitionId;
use crate::text;

verus! {

/// What a call is for.
#[derive(Clone, Copy, Debug, PartialEq, Eq, Structural)]
pub enum Purpose {
    OwnerRead,
    OwnerReadBarrier,
    SubscriptionAuthority,
}

impl Purpose {
    /// How the candidates are called where there are none.
    pub open spec fn sought(self) -> Seq<char> {
        match self {
            Purpose::OwnerRead => "owner-read"@,
            Purpose::OwnerReadBarrier => "owner-read"@,
            Purpose::SubscriptionAuthority => "subscription-authority"@,
        }
    }

    /// How the candidates are called where all have failed.
    pub open spec fn tried(self) -> Seq<char> {
        match self {
            Purpose::OwnerRead => "owner-read"@,
            Purpose::OwnerReadBarrier => "owner-read barrier"@,
            Purpose::SubscriptionAuthority => "subscription-authority"@,
        }
    }
}

/// The address holds a scheme.
pub open spec fn has_scheme(address: Seq<char>) -> bool {
    exists|i: int|
        0 <= i && i + 2 < address.len() && #[trigger] address[i] == ':' && address[i + 1] == '/'
            && address[i + 2] == '/'
}

/// The address with a scheme.
pub open spec fn endpoint(address: Seq<char>) -> Seq<char> {
    if has_scheme(address) {
        address
    } else {
        "http://"@ + address
    }
}

/// The address with a scheme: the one that it has, or that of plain HTTP.
pub fn endpoint_address(address: &str) -> (r: String)
    ensures
        r@ == endpoint(address@),
{
    let chars = text::chars_of(address);
    let mut i: usize = 0;
    while i < chars.len()
        invariant
            chars@ == address@,
            i <= chars@.len(),
            forall|k: int|
                0 <= k < i && k + 2 < chars@.len() ==> !(#[trigger] chars@[k] == ':' && chars@[k
                    + 1] == '/' && chars@[k + 2] == '/'),
        decreases chars@.len() - i,
    {
        if chars.len() - i > 2 && chars[i] == ':' && chars[i + 1] == '/' && chars[i + 2] == '/' {
            assert(address@[i as int] == ':');
            return address.to_owned();
        }
        i = i + 1;
    }
    assert(!has_scheme(address@));
    let mut out = "http://".to_owned();
    out.append(address);
    out
}

/// The texts, with a separator between each two.
pub open spec fn joined(texts: Seq<Seq<char>>, separator: Seq<char>) -> Seq<char>
    decreases texts.len(),
{
    if texts.len() == 0 {
        Seq::empty()
    } else if texts.len() == 1 {
        texts[0]
    } else {
        joined(texts.drop_last(), separator) + separator + texts.last()
    }
}

/// The texts, with a separator between each two.
pub fn join(texts: &Vec<String>, separator: &str) -> (r: String)
    ensures
        r@ == joined(text::texts(texts@), separator@),
{
    let ghost all = text::texts(texts@);
    let mut out = String::new();
    let mut i: usize = 0;
    assert(out@ =~= joined(all.take(0), separator@));
    while i < texts.len()
        invariant
            all == text::texts(texts@),
            i <= texts@.len(),
            out@ == joined(all.take(i as int), separator@),
        decreases texts@.len() - i,
    {
        proof {
            assert(all.take(i + 1).drop_last() =~= all.take(i as int));
            assert(all.take(i + 1).last() == texts@[i as int]@);
        }
        if i > 0 {
            out.append(separator);
        }
        out.append(texts[i].as_str());
        proof {
            if i == 0 {
                assert(out@ =~= all[0]);
                assert(all.take(1)[0] == all[0]);
            } else {
                assert(out@ =~= joined(all.take(i as int), separator@) + separator@
                    + all[i as int]);
            }
        }
        i = i + 1;
    }
    assert(all.take(all.len() as int) =~= all);
    out
}

/// Why a call was not made.
pub open spec fn no_candidates(purpose: Purpose, partition: PartitionId) -> Seq<char> {
    "No live "@ + purpose.sought() + " candidates for partition "@ + partition.printed()
}

/// Why a call failed at every address.
pub open spec fn all_failed(
    purpose: Purpose,
    partition: PartitionId,
    failures: Seq<Seq<char>>,
) -> Seq<char> {
    "All "@ + purpose.tried() + " candidates for partition "@ + partition.printed() + " failed: "@
        + joined(failures, "; "@)
}

/// What an address that failed said.
pub open spec fn failure_of(address: Seq<char>, error: Seq<char>) -> Seq<char> {
    address + ": "@ + error
}

/// A call that goes from address to address.
#[derive(Clone, Debug)]
pub struct Attempts {
    purpose: Purpose,
    partition: PartitionId,
    addresses: Vec<String>,
    failures: Vec<String>,
}

/// What [`Attempts`] state.
#[verifier::ext_equal]
pub struct AttemptsView {
    pub purpose: Purpose,
    pub partition: PartitionId,
    pub addresses: Seq<Seq<char>>,
    pub failures: Seq<Seq<char>>,
}

impl View for Attempts {
    type V = AttemptsView;

    closed spec fn view(&self) -> AttemptsView {
        AttemptsView {
            purpose: self.purpose,
            partition: self.partition,
            addresses: text::texts(self.addresses@),
            failures: text::texts(self.failures@),
        }
    }
}

impl AttemptsView {
    /// Every address has failed.
    pub open spec fn exhausted(self) -> bool {
        self.failures.len() >= self.addresses.len()
    }
}

impl Attempts {
    /// A call to the partition, at the addresses that it has now.
    pub fn new(
        purpose: Purpose,
        partition: PartitionId,
        known: &Option<NodeAddresses>,
    ) -> (r: Result<Self, String>)
        requires
            known matches Some(addresses) ==> addresses.wf(),
        ensures
            match r {
                Ok(attempts) => {
                    &&& known matches Some(addresses)
                    &&& addresses@.dom().contains(partition.0)
                    &&& attempts@ == (AttemptsView {
                        purpose,
                        partition,
                        addresses: addresses@[partition.0],
                        failures: Seq::empty(),
                    })
                },
                Err(error) => {
                    &&& known matches Some(addresses) ==> !addresses@.dom().contains(partition.0)
                    &&& error@ == no_candidates(purpose, partition)
                },
            },
    {
        match known {
            Some(addresses) => match addresses.addresses_for(partition) {
                Some(listed) => {
                    let attempts = Attempts {
                        purpose,
                        partition,
                        addresses: text::duplicate_texts(listed),
                        failures: Vec::new(),
                    };
                    assert(attempts@.failures =~= Seq::empty());
                    return Ok(attempts);
                },
                None => {},
            },
            None => {},
        }
        let mut error = "No live ".to_owned();
        match purpose {
            Purpose::OwnerRead => error.append("owner-read"),
            Purpose::OwnerReadBarrier => error.append("owner-read"),
            Purpose::SubscriptionAuthority => error.append("subscription-authority"),
        }
        error.append(" candidates for partition ");
        error.append(partition.print().as_str());
        Err(error)
    }

    /// The addresses, in the order in which they are preferred.
    pub fn addresses(&self) -> (r: &Vec<String>)
        ensures
            text::texts(r@) == self@.addresses,
    {
        &self.addresses
    }

    /// The address to try next: the first that has not been tried.
    pub fn next_address(&self) -> (r: Option<&str>)
        ensures
            match r {
                Some(address) => !self@.exhausted() && address@
                    == self@.addresses[self@.failures.len() as int],
                None => self@.exhausted(),
            },
    {
        if self.failures.len() < self.addresses.len() {
            Some(self.addresses[self.failures.len()].as_str())
        } else {
            None
        }
    }

    /// Notes what an address that failed said.
    pub fn failed(&mut self, address: &str, error: &str)
        ensures
            final(self)@ == (AttemptsView {
                failures: old(self)@.failures.push(failure_of(address@, error@)),
                ..old(self)@
            }),
    {
        let mut failure = address.to_owned();
        failure.append(": ");
        failure.append(error);
        let ghost before = self.failures@;
        self.failures.push(failure);
        assert(text::texts(self.failures@) =~= text::texts(before).push(
            failure_of(address@, error@),
        ));
    }

    /// The error of a call that failed everywhere.
    pub fn error(&self) -> (r: String)
        ensures
            r@ == all_failed(self@.purpose, self@.partition, self@.failures),
    {
        let mut error = "All ".to_owned();
        match self.purpose {
            Purpose::OwnerRead => error.append("owner-read"),
            Purpose::OwnerReadBarrier => error.append("owner-read barrier"),
            Purpose::SubscriptionAuthority => error.append("subscription-authority"),
        }
        error.append(" candidates for partition ");
        error.append(self.partition.print().as_str());
        error.append(" failed: ");
        error.append(join(&self.failures, "; ").as_str());
        error
    }
}

/// The call after each of the next `n` addresses has failed with its error.
pub open spec fn after_failing(a: AttemptsView, errors: Seq<Seq<char>>, n: nat) -> AttemptsView
    decreases n,
{
    if n == 0 {
        a
    } else {
        let before = after_failing(a, errors, (n - 1) as nat);
        AttemptsView {
            failures: before.failures.push(
                failure_of(before.addresses[before.failures.len() as int], errors[n - 1]),
            ),
            ..before
        }
    }
}

/// Every address is tried, once and in its order, before a call fails: a fresh
/// call that has failed `n` times stands at the address in place `n`, and it
/// has tried them all after as many failures as there are addresses, never
/// earlier.
pub proof fn every_candidate_is_tried_in_order(a: AttemptsView, errors: Seq<Seq<char>>, n: nat)
    requires
        a.failures.len() == 0,
        n <= a.addresses.len(),
        n <= errors.len(),
    ensures
        after_failing(a, errors, n).addresses == a.addresses,
        after_failing(a, errors, n).failures.len() == n,
        after_failing(a, errors, n).exhausted() <==> n == a.addresses.len(),
        forall|i: int|
            0 <= i < n ==> #[trigger] after_failing(a, errors, n).failures[i] == failure_of(
                a.addresses[i],
                errors[i],
            ),
    decreases n,
{
    if n > 0 {
        every_candidate_is_tried_in_order(a, errors, (n - 1) as nat);
    }
}

/// An address is called with its own scheme where it has one, which ends in
/// `://`, and with that of plain HTTP where it has none.
pub proof fn endpoints_have_a_scheme(
    address: Seq<char>,
    scheme: Seq<char>,
    rest: Seq<char>,
)
    ensures
        endpoint(scheme + seq![':', '/', '/'] + rest) == scheme + seq![':', '/', '/'] + rest,
        (forall|i: int|
            0 <= i <= address.len() - 3 ==> #[trigger] address.subrange(i, i + 3)
                != seq![':', '/', '/']) ==> endpoint(address) == "http://"@ + address,
        !address.contains(':') ==> endpoint(address) == "http://"@ + address,
{
    let whole = scheme + seq![':', '/', '/'] + rest;
    let n = scheme.len() as int;
    assert(whole[n] == ':' && whole[n + 1] == '/' && whole[n + 2] == '/');
    assert(has_scheme(whole));
    if has_scheme(address) {
        let i = choose|i: int|
            0 <= i && i + 2 < address.len() && #[trigger] address[i] == ':' && address[i + 1]
                == '/' && address[i + 2] == '/';
        assert(address.subrange(i, i + 3) =~= seq![':', '/', '/']);
        assert(address.contains(address[i]));
    }
}

/// Texts are joined in their order with one separator between each two: nothing
/// for no text, the text itself for one, and two lists joined one behind the
/// other.
pub proof fn joining_keeps_order(a: Seq<Seq<char>>, b: Seq<Seq<char>>, separator: Seq<char>)
    ensures
        joined(Seq::empty(), separator) == Seq::<char>::empty(),
        a.len() == 1 ==> joined(a, separator) == a[0],
        a.len() > 0 && b.len() > 0 ==> joined(a + b, separator) == joined(a, separator) + separator
            + joined(b, separator),
    decreases b.len(),
{
    if a.len() > 0 && b.len() > 0 {
        assert((a + b).drop_last() =~= a + b.drop_last());
        assert((a + b).last() == b.last());
        if b.len() == 1 {
            assert(a + b.drop_last() =~= a);
        } else {
            joining_keeps_order(a, b.drop_last(), separator);
            assert(joined(a + b, separator) =~= joined(a, separator) + separator + joined(
                b,
                separator,
            ));
        }
    }
}

/// The error of a call that failed everywhere begins with what was tried for
/// which partition, and goes on with what each address said.
pub proof fn errors_tell_what_each_address_said(
    purpose: Purpose,
    partition: PartitionId,
    first: Seq<char>,
    first_error: Seq<char>,
    second: Seq<char>,
    second_error: Seq<char>,
)
    ensures
        ({
            let head = "All "@ + purpose.tried() + " candidates for partition "@
                + partition.printed() + " failed: "@;
            let one = first + ": "@ + first_error;
            let other = second + ": "@ + second_error;
            &&& all_failed(purpose, partition, seq![failure_of(first, first_error)]) == head + one
            &&& all_failed(
                purpose,
                partition,
                seq![failure_of(first, first_error), failure_of(second, second_error)],
            ) == head + (one + "; "@ + other)
        }),
{
    let one = failure_of(first, first_error);
    let other = failure_of(second, second_error);
    joining_keeps_order(seq![one], seq![other], "; "@);
    assert(seq![one] + seq![other] =~= seq![one, other]);
    joining_keeps_order(seq![other], seq![one], "; "@);
}

} // verus!
