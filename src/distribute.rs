//! The encrypt side: the threshold policy, its feasibility check, and the
//! assembly of the envelope from the stanzas that each recipient produced.
use vstd::prelude::*;

use crate::envelope::{envelope_bytes, serialize};
use crate::stanza::{models, Stanza, StanzaModel};

verus! {

/// Why no envelope was produced.
#[derive(PartialEq, Eq, Structural, Debug, Clone, Copy)]
pub enum DistributeError {
    /// A threshold of zero protects nothing.
    ZeroThreshold,
    /// Fewer recipients than the threshold, or none at all.
    NotEnoughRecipients,
    /// Wrapping a share for one recipient gave other than exactly one stanza.
    WrapProducedUnexpectedStanzaCount,
}

/// The simple-majority policy: `n / 2 + 1` of `n` recipients.
pub open spec fn majority(n: nat) -> nat {
    n / 2 + 1
}

/// The threshold used when none is requested for `n` recipients.
pub fn default_threshold(n: usize) -> (r: usize)
    ensures
        r as nat == majority(n as nat),
{
    n / 2 + 1
}

/// The threshold that `requested`, or else the default policy, gives for `n`
/// recipients.
pub open spec fn chosen_threshold(n: nat, requested: Option<usize>) -> nat {
    match requested {
        Some(t) => t as nat,
        None => majority(n),
    }
}

/// Settles the threshold for `n_recipients` recipients before any key is
/// made: the requested one, or else the simple majority. Fails when it is zero,
/// and when there are fewer recipients than it (so always when there are none).
pub fn choose_threshold(n_recipients: usize, requested: Option<usize>) -> (r: Result<
    usize,
    DistributeError,
>)
    ensures
        match r {
            Ok(t) => t as nat == chosen_threshold(n_recipients as nat, requested) && 1 <= t
                <= n_recipients,
            Err(e) => (e == DistributeError::ZeroThreshold && chosen_threshold(
                n_recipients as nat,
                requested,
            ) == 0) || (e == DistributeError::NotEnoughRecipients && chosen_threshold(
                n_recipients as nat,
                requested,
            ) > n_recipients),
        },
        r is Ok <==> 1 <= chosen_threshold(n_recipients as nat, requested) <= n_recipients,
{
    let t = match requested {
        Some(t) => t,
        None => default_threshold(n_recipients),
    };
    if t == 0 {
        Err(DistributeError::ZeroThreshold)
    } else if n_recipients < t {
        Err(DistributeError::NotEnoughRecipients)
    } else {
        Ok(t)
    }
}

/// Every recipient's wrapping gave exactly one stanza.
pub open spec fn all_single(w: Seq<Vec<Stanza>>) -> bool {
    forall|i: int| 0 <= i < w.len() ==> (#[trigger] w[i])@.len() == 1
}

/// The one stanza of each wrapping, in recipient order.
pub open spec fn singles(w: Seq<Vec<Stanza>>) -> Seq<StanzaModel> {
    w.map_values(|v: Vec<Stanza>| v@[0].model())
}

/// Takes the one stanza that wrapping each share gave, in recipient order;
/// fails when any wrapping gave none or several.
pub fn collect_wrapped(wrapped: Vec<Vec<Stanza>>) -> (r: Result<Vec<Stanza>, DistributeError>)
    ensures
        match r {
            Ok(s) => all_single(wrapped@) && models(s@) == singles(wrapped@),
            Err(e) => e == DistributeError::WrapProducedUnexpectedStanzaCount && !all_single(
                wrapped@,
            ),
        },
{
    let mut out: Vec<Stanza> = Vec::new();
    let mut rest = wrapped;
    let ghost all = rest@;
    let mut items: Vec<Vec<Stanza>> = Vec::new();
    // Reverse so that popping from the back yields recipient order.
    while rest.len() > 0
        invariant
            all == rest@ + items@.reverse(),
            all == wrapped@,
        decreases rest@.len(),
    {
        let ghost before = rest@;
        let v = rest.pop().unwrap();
        proof {
            assert(items@.push(v).reverse() =~= seq![v] + items@.reverse());
            assert(before =~= rest@.push(v));
        }
        items.push(v);
    }
    assert(all =~= items@.reverse());
    let n = items.len();
    let mut i: usize = 0;
    while i < n
        invariant
            n == all.len(),
            all == wrapped@,
            i <= n,
            items@.len() == n - i,
            forall|k: int| 0 <= k < n - i ==> items@[k] == all[n - 1 - k],
            forall|k: int| 0 <= k < i ==> (#[trigger] all[k])@.len() == 1,
            models(out@) == singles(all.take(i as int)),
        decreases n - i,
    {
        let mut v = items.pop().unwrap();
        assert(v == all[i as int]);
        if v.len() != 1 {
            assert(!all_single(all)) by {
                assert(all[i as int]@.len() != 1);
            }
            return Err(DistributeError::WrapProducedUnexpectedStanzaCount);
        }
        let s = v.pop().unwrap();
        proof {
            assert(singles(all.take(i + 1)) =~= singles(all.take(i as int)).push(s.model()));
        }
        let ghost old_out = out@;
        out.push(s);
        assert(models(out@) =~= models(old_out).push(s.model()));
        i = i + 1;
    }
    assert(all.take(n as int) =~= all);
    Ok(out)
}

/// The envelope for `threshold` over the stanzas that wrapping each share
/// gave, in recipient order; fails, writing nothing, when any wrapping gave
/// other than exactly one stanza.
pub fn build_envelope(threshold: usize, wrapped: Vec<Vec<Stanza>>) -> (r: Result<
    Vec<u8>,
    DistributeError,
>)
    ensures
        match r {
            Ok(b) => all_single(wrapped@) && b@ == envelope_bytes(threshold as nat, singles(wrapped@)),
            Err(e) => e == DistributeError::WrapProducedUnexpectedStanzaCount && !all_single(
                wrapped@,
            ),
        },
{
    match collect_wrapped(wrapped) {
        Ok(stanzas) => Ok(serialize(threshold, &stanzas)),
        Err(e) => Err(e),
    }
}

} // verus!
