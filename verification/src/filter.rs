//! Port-based narrowing of the candidate pool.
//!
//! With a non-empty port allow-list, each candidate is projected to zero or
//! more narrowed candidates, one per advertised address whose port is in the
//! list, each carrying that single address re-encoded canonically. An empty
//! list keeps the pool unchanged.

use vstd::prelude::*;

use crate::codec::decode_spec;
use crate::codec::encode_spec;
use crate::codec::format_address;
use crate::codec::lemma_encode_decodes;
use crate::codec::parse_list_spec;
use crate::codec::parse_or_addresses;
use crate::relay::Relay;
use crate::relay::RelayView;

verus! {

pub open spec fn port_in(ports: Seq<u16>, p: u16) -> bool {
    exists|i: int| 0 <= i < ports.len() && ports[i] == p
}

/// The narrowed candidates that one relay contributes: one per parsed
/// address whose port is allowed, in address order, each carrying exactly
/// that address in canonical form.
pub open spec fn narrow_one(r: RelayView, parsed: Seq<(Seq<char>, u16)>, ports: Seq<u16>) -> Seq<
    RelayView,
>
    decreases parsed.len(),
{
    if parsed.len() == 0 {
        seq![]
    } else {
        let rest = narrow_one(r, parsed.drop_last(), ports);
        let (host, port) = parsed.last();
        if port_in(ports, port) {
            rest.push(
                RelayView { fingerprint: r.fingerprint, or_addresses: seq![encode_spec(host, port)] },
            )
        } else {
            rest
        }
    }
}

/// The narrowed pool: every relay's contribution, in pool order.
pub open spec fn narrow_all(relays: Seq<RelayView>, ports: Seq<u16>) -> Seq<RelayView>
    decreases relays.len(),
{
    if relays.len() == 0 {
        seq![]
    } else {
        narrow_all(relays.drop_last(), ports) + narrow_one(
            relays.last(),
            parse_list_spec(relays.last().or_addresses),
            ports,
        )
    }
}

/// Whether `p` occurs in the allow-list.
fn port_allowed(ports: &Vec<u16>, p: u16) -> (r: bool)
    ensures
        r == port_in(ports@, p),
{
    let n = ports.len();
    let mut i: usize = 0;
    while i < n
        invariant
            n == ports.len(),
            i <= n,
            forall|j: int| 0 <= j < i ==> ports@[j] != p,
        decreases n - i,
    {
        if ports[i] == p {
            return true;
        }
        i = i + 1;
    }
    false
}

/// Every candidate that one relay contributes under narrowing keeps the
/// relay's identifier and carries exactly one address, which decodes to a
/// port in the allow-list.
proof fn lemma_narrow_one_shape(
    r: RelayView,
    parsed: Seq<(Seq<char>, u16)>,
    ports: Seq<u16>,
    k: int,
)
    requires
        0 <= k < narrow_one(r, parsed, ports).len(),
    ensures
        ({
            let c = narrow_one(r, parsed, ports)[k];
            &&& c.fingerprint == r.fingerprint
            &&& c.or_addresses.len() == 1
            &&& decode_spec(c.or_addresses[0]) is Some
            &&& port_in(ports, decode_spec(c.or_addresses[0]).unwrap().1)
        }),
    decreases parsed.len(),
{
    if parsed.len() > 0 {
        let rest = narrow_one(r, parsed.drop_last(), ports);
        let (host, port) = parsed.last();
        if port_in(ports, port) && k == rest.len() {
            lemma_encode_decodes(host, port);
        } else {
            lemma_narrow_one_shape(r, parsed.drop_last(), ports, k);
        }
    }
}

/// A candidate none of whose parsed addresses has an allowed port
/// contributes nothing to the narrowed pool: it disappears entirely.
pub proof fn lemma_unmatched_candidate_disappears(
    r: RelayView,
    parsed: Seq<(Seq<char>, u16)>,
    ports: Seq<u16>,
)
    requires
        forall|i: int| 0 <= i < parsed.len() ==> !port_in(ports, (#[trigger] parsed[i]).1),
    ensures
        narrow_one(r, parsed, ports) == Seq::<RelayView>::empty(),
    decreases parsed.len(),
{
    if parsed.len() > 0 {
        assert(parsed.last() == parsed[parsed.len() - 1]);
        assert(forall|i: int|
            0 <= i < parsed.drop_last().len() ==> (#[trigger] parsed.drop_last()[i]) == parsed[i]);
        lemma_unmatched_candidate_disappears(r, parsed.drop_last(), ports);
    }
}

/// Filtering law: with a non-empty allow-list, every narrowed candidate in
/// the pool has exactly one address, and its port is in the list.
pub proof fn lemma_narrowed_candidates(relays: Seq<RelayView>, ports: Seq<u16>, k: int)
    requires
        ports.len() > 0,
        0 <= k < narrow_all(relays, ports).len(),
    ensures
        ({
            let c = narrow_all(relays, ports)[k];
            &&& c.or_addresses.len() == 1
            &&& decode_spec(c.or_addresses[0]) is Some
            &&& port_in(ports, decode_spec(c.or_addresses[0]).unwrap().1)
        }),
    decreases relays.len(),
{
    if relays.len() > 0 {
        let front = narrow_all(relays.drop_last(), ports);
        if k < front.len() {
            lemma_narrowed_candidates(relays.drop_last(), ports, k);
        } else {
            lemma_narrow_one_shape(
                relays.last(),
                parse_list_spec(relays.last().or_addresses),
                ports,
                k - front.len(),
            );
        }
    }
}

/// Narrows the pool by the port allow-list: with a non-empty list, one new
/// single-address candidate per (candidate, allowed address) pair; with an
/// empty list, the pool unchanged.
pub fn filter_by_port(relays: &Vec<Relay>, ports: &Vec<u16>) -> (r: Vec<Relay>)
    ensures
        ports@.len() == 0 ==> r.deep_view() == relays.deep_view(),
        ports@.len() > 0 ==> r.deep_view() == narrow_all(relays.deep_view(), ports@),
{
    let n = relays.len();
    let mut out: Vec<Relay> = Vec::new();
    let mut i: usize = 0;
    if ports.is_empty() {
        while i < n
            invariant
                n == relays.len(),
                i <= n,
                out.deep_view() =~= relays.deep_view().subrange(0, i as int),
            decreases n - i,
        {
            let copy = Relay {
                fingerprint: relays[i].fingerprint.clone(),
                or_addresses: relays[i].or_addresses.clone(),
            };
            proof {
                assert(copy.or_addresses.deep_view() =~= relays@[i as int].or_addresses.deep_view());
                assert(copy.deep_view() =~= relays.deep_view()[i as int]);
            }
            let ghost out_prev = out@;
            let ghost out_deep = out.deep_view();
            out.push(copy);
            proof {
                assert forall|k: int| 0 <= k < out@.len() implies out.deep_view()[k]
                    == out_deep.push(copy.deep_view())[k] by {
                    if k < out_prev.len() {
                        assert(out@[k] == out_prev[k]);
                        assert(out_deep[k] == out_prev[k].deep_view());
                    } else {
                        assert(out@[k] == copy);
                    }
                }
                assert(out.deep_view() =~= out_deep.push(copy.deep_view()));
                assert(out_deep.push(copy.deep_view()) =~= relays.deep_view().subrange(0, i + 1));
                assert(out.deep_view() =~= relays.deep_view().subrange(0, i + 1));
            }
            i = i + 1;
        }
        proof {
            assert(relays.deep_view().subrange(0, n as int) =~= relays.deep_view());
        }
        return out;
    }
    while i < n
        invariant
            n == relays.len(),
            i <= n,
            out.deep_view() == narrow_all(relays.deep_view().subrange(0, i as int), ports@),
        decreases n - i,
    {
        let parsed = parse_or_addresses(&relays[i].or_addresses);
        let ghost rv = relays.deep_view()[i as int];
        let ghost parsedv = parsed.deep_view();
        let m = parsed.len();
        let mut rest = parsed;
        let mut j: usize = 0;
        while j < m
            invariant
                n == relays.len(),
                i < n,
                j <= m,
                rv == relays.deep_view()[i as int],
                m == parsedv.len(),
                rest@.len() == m - j,
                rest.deep_view() =~= parsedv.subrange(j as int, m as int),
                out.deep_view() == narrow_all(relays.deep_view().subrange(0, i as int), ports@)
                    + narrow_one(rv, parsedv.subrange(0, j as int), ports@),
            decreases m - j,
        {
            let ghost prev_items = rest@;
            let ghost prev_deep = rest.deep_view();
            let (host, port) = rest.remove(0);
            proof {
                assert(prev_deep[0] == prev_items[0].deep_view());
                assert(parsedv.subrange(j as int, m as int)[0] == parsedv[j as int]);
                assert((host@, port) == parsedv[j as int]);
                assert forall|k: int| 0 <= k < rest@.len() implies rest.deep_view()[k]
                    == parsedv.subrange(j + 1, m as int)[k] by {
                    assert(rest@[k] == prev_items[k + 1]);
                    assert(prev_deep[k + 1] == prev_items[k + 1].deep_view());
                    assert(prev_deep[k + 1] == parsedv.subrange(j as int, m as int)[k + 1]);
                }
                assert(rest.deep_view() =~= parsedv.subrange(j + 1, m as int));
                assert(parsedv.subrange(0, j + 1).drop_last() =~= parsedv.subrange(0, j as int));
                assert(parsedv.subrange(0, j + 1).last() == parsedv[j as int]);
            }
            if port_allowed(ports, port) {
                let addr = format_address(host.as_str(), port);
                let mut one: Vec<String> = Vec::new();
                one.push(addr);
                let narrowed = Relay {
                    fingerprint: relays[i].fingerprint.clone(),
                    or_addresses: one,
                };
                proof {
                    assert(narrowed.deep_view() =~= RelayView {
                        fingerprint: rv.fingerprint,
                        or_addresses: seq![encode_spec(host@, port)],
                    });
                }
                let ghost out_prev = out@;
                let ghost out_deep = out.deep_view();
                out.push(narrowed);
                proof {
                    assert forall|k: int| 0 <= k < out@.len() implies out.deep_view()[k]
                        == out_deep.push(narrowed.deep_view())[k] by {
                        if k < out_prev.len() {
                            assert(out@[k] == out_prev[k]);
                            assert(out_deep[k] == out_prev[k].deep_view());
                        } else {
                            assert(out@[k] == narrowed);
                        }
                    }
                    assert(out.deep_view() =~= out_deep.push(narrowed.deep_view()));
                    assert(out_deep.push(narrowed.deep_view()) =~= narrow_all(
                        relays.deep_view().subrange(0, i as int),
                        ports@,
                    ) + narrow_one(rv, parsedv.subrange(0, j + 1), ports@));
                    assert(out.deep_view() =~= narrow_all(
                        relays.deep_view().subrange(0, i as int),
                        ports@,
                    ) + narrow_one(rv, parsedv.subrange(0, j + 1), ports@));
                }
            } else {
                proof {
                    assert(out.deep_view() =~= narrow_all(
                        relays.deep_view().subrange(0, i as int),
                        ports@,
                    ) + narrow_one(rv, parsedv.subrange(0, j + 1), ports@));
                }
            }
            j = j + 1;
        }
        proof {
            assert(parsedv.subrange(0, m as int) =~= parsedv);
            assert(relays.deep_view().subrange(0, i + 1).drop_last() =~= relays.deep_view()
                .subrange(0, i as int));
            assert(relays.deep_view().subrange(0, i + 1).last() == rv);
            assert(parsedv == parse_list_spec(rv.or_addresses));
            assert(out.deep_view() =~= narrow_all(
                relays.deep_view().subrange(0, i + 1),
                ports@,
            ));
        }
        i = i + 1;
    }
    proof {
        assert(relays.deep_view().subrange(0, n as int) =~= relays.deep_view());
    }
    out
}

} // verus!
