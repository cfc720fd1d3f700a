//! The ranked-fallback plan for retrieving the candidate list.
//!
//! Sources are tried strictly in order: the primary directory endpoint,
//! then any caller-supplied extra sources, then two community mirrors as
//! last resort. The first source that both answers and decodes wins; the
//! run is unavailable only when every source has failed. The plan decides;
//! the caller performs each request and reports what happened.

use vstd::prelude::*;

use crate::relay::Relay;

verus! {

/// The primary directory endpoint, always tried first.
pub open spec fn primary_source() -> Seq<char> {
    "https://onionoo.torproject.org/details?type=relay&running=true&fields=fingerprint,or_addresses,country"@
}

/// First community mirror, tried after every caller-supplied source.
pub open spec fn mirror_a_source() -> Seq<char> {
    "https://raw.githubusercontent.com/nukeddd/tor-onionoo-mirror/refs/heads/master/details-running-relays-fingerprint-address-only.json"@
}

/// Second community mirror, the very last resort.
pub open spec fn mirror_b_source() -> Seq<char> {
    "https://bitbucket.org/ValdikSS/tor-onionoo-mirror/raw/master/details-running-relays-fingerprint-address-only.json"@
}

pub fn primary_url() -> (r: &'static str)
    ensures
        r@ == primary_source(),
{
    "https://onionoo.torproject.org/details?type=relay&running=true&fields=fingerprint,or_addresses,country"
}

pub fn mirror_a_url() -> (r: &'static str)
    ensures
        r@ == mirror_a_source(),
{
    "https://raw.githubusercontent.com/nukeddd/tor-onionoo-mirror/refs/heads/master/details-running-relays-fingerprint-address-only.json"
}

pub fn mirror_b_url() -> (r: &'static str)
    ensures
        r@ == mirror_b_source(),
{
    "https://bitbucket.org/ValdikSS/tor-onionoo-mirror/raw/master/details-running-relays-fingerprint-address-only.json"
}

/// What the caller reports about the attempt it was last asked to make.
pub enum FetchEvent {
    /// No attempt made yet: ask for the first source.
    Started,
    /// The source answered and decoded into candidates.
    Received(Vec<Relay>),
    /// Transport failure, non-success status, or a body that did not decode.
    Failed,
}

/// What the plan decides next.
pub enum FetchStep {
    /// Try this source.
    Request(String),
    /// A source succeeded: these are the run's candidates, untouched.
    Done(Vec<Relay>),
    /// Every source failed: the single fatal condition.
    Unavailable,
}

/// The ordered sources still to try.
pub struct FetchPlan {
    pub remaining: Vec<String>,
}

impl FetchPlan {
    /// Builds the full probe order: primary first, then the caller's extra
    /// sources, then the two mirrors.
    pub fn new(extra_urls: &Vec<String>) -> (p: Self)
        ensures
            p.remaining.deep_view() == seq![primary_source()] + extra_urls.deep_view() + seq![
                mirror_a_source(),
                mirror_b_source(),
            ],
    {
        let ghost target = seq![primary_source()] + extra_urls.deep_view() + seq![
            mirror_a_source(),
            mirror_b_source(),
        ];
        let mut remaining: Vec<String> = Vec::new();
        remaining.push(String::from_str(primary_url()));
        proof {
            assert(remaining.deep_view() =~= seq![primary_source()]);
        }
        let n = extra_urls.len();
        let mut i: usize = 0;
        while i < n
            invariant
                n == extra_urls.len(),
                i <= n,
                remaining.deep_view() =~= seq![primary_source()] + extra_urls.deep_view().subrange(
                    0,
                    i as int,
                ),
            decreases n - i,
        {
            let ghost prev_items = remaining@;
            let ghost prev_deep = remaining.deep_view();
            let item = extra_urls[i].clone();
            proof {
                assert(item@ == extra_urls.deep_view()[i as int]);
            }
            remaining.push(item);
            proof {
                assert forall|k: int| 0 <= k < remaining@.len() implies remaining.deep_view()[k]
                    == prev_deep.push(item@)[k] by {
                    if k < prev_items.len() {
                        assert(remaining@[k] == prev_items[k]);
                        assert(prev_deep[k] == prev_items[k].deep_view());
                    } else {
                        assert(remaining@[k] == item);
                    }
                }
                assert(remaining.deep_view() =~= prev_deep.push(item@));
                assert(prev_deep.push(item@) =~= seq![primary_source()]
                    + extra_urls.deep_view().subrange(0, i + 1));
            }
            i = i + 1;
        }
        proof {
            assert(extra_urls.deep_view().subrange(0, n as int) =~= extra_urls.deep_view());
        }
        let ghost before_mirrors = remaining.deep_view();
        let ghost prev_items_a = remaining@;
        let mirror_a = String::from_str(mirror_a_url());
        remaining.push(mirror_a);
        proof {
            assert forall|k: int| 0 <= k < remaining@.len() implies remaining.deep_view()[k]
                == before_mirrors.push(mirror_a_source())[k] by {
                if k < prev_items_a.len() {
                    assert(remaining@[k] == prev_items_a[k]);
                    assert(before_mirrors[k] == prev_items_a[k].deep_view());
                }
            }
            assert(remaining.deep_view() =~= before_mirrors.push(mirror_a_source()));
        }
        let ghost with_a = remaining.deep_view();
        let ghost prev_items_b = remaining@;
        let mirror_b = String::from_str(mirror_b_url());
        remaining.push(mirror_b);
        proof {
            assert forall|k: int| 0 <= k < remaining@.len() implies remaining.deep_view()[k]
                == with_a.push(mirror_b_source())[k] by {
                if k < prev_items_b.len() {
                    assert(remaining@[k] == prev_items_b[k]);
                    assert(with_a[k] == prev_items_b[k].deep_view());
                }
            }
            assert(remaining.deep_view() =~= with_a.push(mirror_b_source()));
            assert(remaining.deep_view() =~= target);
        }
        FetchPlan { remaining }
    }

    /// One decision of the fallback loop. A success ends the run with
    /// exactly the received candidates and tries nothing further; otherwise
    /// the next source in order is requested, and when none is left the
    /// whole retrieval has failed.
    pub fn step(&mut self, event: FetchEvent) -> (r: FetchStep)
        ensures
            (match event {
                FetchEvent::Received(relays) => {
                    &&& r == FetchStep::Done(relays)
                    &&& final(self).remaining == old(self).remaining
                },
                _ => {
                    if old(self).remaining@.len() > 0 {
                        &&& (r matches FetchStep::Request(url) && url@ == old(
                            self,
                        ).remaining.deep_view()[0])
                        &&& final(self).remaining.deep_view() == old(
                            self,
                        ).remaining.deep_view().drop_first()
                    } else {
                        &&& r is Unavailable
                        &&& final(self).remaining == old(self).remaining
                    }
                },
            }),
    {
        match event {
            FetchEvent::Received(relays) => FetchStep::Done(relays),
            _ => {
                if self.remaining.len() > 0 {
                    let ghost prev_items = self.remaining@;
                    let ghost prev_deep = self.remaining.deep_view();
                    let url = self.remaining.remove(0);
                    proof {
                        assert(prev_deep[0] == prev_items[0].deep_view());
                        assert forall|k: int|
                            0 <= k < self.remaining@.len() implies self.remaining.deep_view()[k]
                            == prev_deep.drop_first()[k] by {
                            assert(self.remaining@[k] == prev_items[k + 1]);
                            assert(prev_deep[k + 1] == prev_items[k + 1].deep_view());
                        }
                        assert(self.remaining.deep_view() =~= prev_deep.drop_first());
                    }
                    FetchStep::Request(url)
                } else {
                    FetchStep::Unavailable
                }
            },
        }
    }
}

} // verus!
