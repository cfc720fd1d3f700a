//! The candidate data model: a relay endpoint with its advertised addresses,
//! and the outcome of probing one relay.

use vstd::prelude::*;

use crate::codec::parse_list_spec;

verus! {

/// One candidate endpoint: a stable identifier and its advertised addresses
/// in canonical textual form.
pub struct Relay {
    pub fingerprint: String,
    pub or_addresses: Vec<String>,
}

/// The mathematical shape of a relay: its identifier and address texts.
#[verifier::ext_equal]
pub ghost struct RelayView {
    pub fingerprint: Seq<char>,
    pub or_addresses: Seq<Seq<char>>,
}

impl View for Relay {
    type V = RelayView;

    open spec fn view(&self) -> RelayView {
        RelayView { fingerprint: self.fingerprint@, or_addresses: self.or_addresses.deep_view() }
    }
}

impl DeepView for Relay {
    type V = RelayView;

    open spec fn deep_view(&self) -> RelayView {
        self.view()
    }
}

/// What probing one relay found: the subset of its parsed addresses that
/// answered within the timeout. Empty means fully unreachable this run.
pub struct ProbeOutcome {
    pub relay: Relay,
    pub reachable: Vec<(String, u16)>,
}

/// The mathematical shape of a probe outcome.
#[verifier::ext_equal]
pub ghost struct ProbeOutcomeView {
    pub relay: RelayView,
    pub reachable: Seq<(Seq<char>, u16)>,
}

impl View for ProbeOutcome {
    type V = ProbeOutcomeView;

    open spec fn view(&self) -> ProbeOutcomeView {
        ProbeOutcomeView { relay: self.relay@, reachable: self.reachable.deep_view() }
    }
}

impl DeepView for ProbeOutcome {
    type V = ProbeOutcomeView;

    open spec fn deep_view(&self) -> ProbeOutcomeView {
        self.view()
    }
}

/// The addresses whose probe answered: element `i` of `addresses` is kept
/// exactly when flag `i` is set, and the given order is preserved.
pub open spec fn kept_by_flags<T>(items: Seq<T>, flags: Seq<bool>) -> Seq<T>
    decreases items.len(),
{
    if items.len() == 0 {
        seq![]
    } else if flags.len() != items.len() {
        seq![]
    } else {
        let rest = kept_by_flags(items.drop_last(), flags.drop_last());
        if flags.last() {
            rest.push(items.last())
        } else {
            rest
        }
    }
}

/// Every address kept by the flags is one of the candidate's own addresses:
/// a probe outcome's reachable set is a subset of what was advertised.
pub proof fn lemma_kept_by_flags_subset<T>(items: Seq<T>, flags: Seq<bool>, k: int)
    requires
        flags.len() == items.len(),
        0 <= k < kept_by_flags(items, flags).len(),
    ensures
        items.contains(kept_by_flags(items, flags)[k]),
    decreases items.len(),
{
    if items.len() > 0 {
        let rest = kept_by_flags(items.drop_last(), flags.drop_last());
        if flags.last() && k == rest.len() {
            assert(items[items.len() - 1] == kept_by_flags(items, flags)[k]);
        } else {
            lemma_kept_by_flags_subset(items.drop_last(), flags.drop_last(), k);
            let x = kept_by_flags(items.drop_last(), flags.drop_last())[k];
            let i = choose|i: int| 0 <= i < items.drop_last().len() && items.drop_last()[i] == x;
            assert(items[i] == x);
        }
    }
}

/// Builds the outcome of probing one relay from the per-address connection
/// results, which arrive in the same order as the parsed addresses: address
/// `i` is reachable exactly when `answered[i]` is true.
pub fn probe_outcome(relay: Relay, addresses: Vec<(String, u16)>, answered: &Vec<bool>) -> (r:
    ProbeOutcome)
    requires
        answered.len() == addresses.len(),
        addresses.deep_view() == parse_list_spec(relay@.or_addresses),
    ensures
        r@.relay == relay@,
        r@.reachable == kept_by_flags(parse_list_spec(relay@.or_addresses), answered@),
{
    let ghost all = addresses.deep_view();
    let mut reachable: Vec<(String, u16)> = Vec::new();
    let n = addresses.len();
    let mut rest = addresses;
    let mut i: usize = 0;
    while i < n
        invariant
            n == all.len(),
            i <= n,
            answered.len() == n,
            rest@.len() == n - i,
            rest.deep_view() =~= all.subrange(i as int, n as int),
            reachable.deep_view() == kept_by_flags(
                all.subrange(0, i as int),
                answered@.subrange(0, i as int),
            ),
        decreases n - i,
    {
        let ghost prev_items = rest@;
        let ghost prev_deep = rest.deep_view();
        let item = rest.remove(0);
        proof {
            assert(prev_deep[0] == prev_items[0].deep_view());
            assert(all.subrange(i as int, n as int)[0] == all[i as int]);
            assert(item.deep_view() == all[i as int]);
            assert forall|k: int| 0 <= k < rest@.len() implies rest.deep_view()[k] == all.subrange(
                i + 1,
                n as int,
            )[k] by {
                assert(rest@[k] == prev_items[k + 1]);
                assert(prev_deep[k + 1] == prev_items[k + 1].deep_view());
                assert(prev_deep[k + 1] == all.subrange(i as int, n as int)[k + 1]);
            }
            assert(rest.deep_view() =~= all.subrange(i + 1, n as int));
            assert(all.subrange(0, i + 1).drop_last() =~= all.subrange(0, i as int));
            assert(answered@.subrange(0, i + 1).drop_last() =~= answered@.subrange(0, i as int));
            assert(all.subrange(0, i + 1).last() == all[i as int]);
        }
        if answered[i] {
            reachable.push(item);
            proof {
                assert(reachable.deep_view() =~= kept_by_flags(
                    all.subrange(0, i + 1),
                    answered@.subrange(0, i + 1),
                ));
            }
        } else {
            proof {
                assert(reachable.deep_view() =~= kept_by_flags(
                    all.subrange(0, i + 1),
                    answered@.subrange(0, i + 1),
                ));
            }
        }
        i = i + 1;
    }
    proof {
        assert(all.subrange(0, n as int) =~= all);
        assert(answered@.subrange(0, n as int) =~= answered@);
    }
    ProbeOutcome { relay, reachable }
}

} // verus!
