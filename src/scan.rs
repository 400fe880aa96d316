//! The reconstruction scan: which identity to try on which stanza, and when
//! enough shares have been gathered.
use vstd::prelude::*;

verus! {

/// What one identity made of one stanza.
pub enum Attempt {
    /// The stanza is not addressed to this identity.
    NotMine,
    /// The identity opened the stanza and recovered this key material.
    Recovered(Vec<u8>),
    /// The stanza is addressed to this identity, but opening it failed.
    Failed,
}

/// A share gathered from the envelope: its 1-based position and key material.
pub struct Share {
    pub index: usize,
    pub key: Vec<u8>,
}

/// Why reconstruction stopped without a result.
#[derive(PartialEq, Eq, Structural, Debug, Clone, Copy)]
pub enum ReconstructError {
    /// An identity recognised a stanza but could not open it.
    UnwrapError,
    /// All stanzas were tried and fewer shares than the threshold came out.
    NotEnoughShares,
}

/// What the scan asks for next.
#[derive(PartialEq, Eq, Structural, Debug, Clone, Copy)]
pub enum Step {
    /// Try identity `identity` (0-based) on stanza `stanza` (0-based).
    Attempt { stanza: usize, identity: usize },
    /// Enough shares are gathered: reconstruct from them.
    Reconstruct,
    /// No stanza is left to try and too few shares were gathered.
    NotEnoughShares,
}

/// The state of a scan over `n_stanzas` stanzas with `n_identities` identities.
pub struct Scan {
    pub threshold: usize,
    pub n_stanzas: usize,
    pub n_identities: usize,
    /// The stanza being tried (0-based).
    pub stanza: usize,
    /// The identity to try next on that stanza (0-based).
    pub identity: usize,
    /// The shares gathered so far, in stanza order.
    pub shares: Vec<Share>,
}

/// `new` is the state that taking in `a`, which opened or did not open the
/// current stanza, leads to from `old`.
pub open spec fn recorded(old: Scan, a: Attempt, new: Scan) -> bool {
    &&& new.threshold == old.threshold
    &&& new.n_stanzas == old.n_stanzas
    &&& new.n_identities == old.n_identities
    &&& match a {
        Attempt::Recovered(key) => new.shares@ == old.shares@.push(
            Share { index: (old.stanza + 1) as usize, key },
        ) && new.stanza == old.stanza + 1 && new.identity == 0,
        Attempt::NotMine => new.shares@ == old.shares@ && if old.identity + 1 < old.n_identities {
            new.stanza == old.stanza && new.identity == old.identity + 1
        } else {
            new.stanza == old.stanza + 1 && new.identity == 0
        },
        Attempt::Failed => false,
    }
}

/// Some identity from `from` on opens the stanza whose outcomes are `row`.
pub open spec fn opens(row: Seq<Attempt>, from: int) -> bool {
    exists|j: int| from <= j < row.len() && #[trigger] row[j] is Recovered
}

/// The number of stanzas from position `from` on that some identity opens.
pub open spec fn count_open(table: Seq<Seq<Attempt>>, from: int) -> nat
    decreases table.len() - from,
{
    if from < 0 || from >= table.len() {
        0
    } else {
        (if opens(table[from], 0) { 1nat } else { 0nat }) + count_open(table, from + 1)
    }
}

/// `table[i][j]` is what identity `j` makes of stanza `i` for every stanza
/// and identity of the scan, and no identity fails on any stanza.
pub open spec fn follows(s: Scan, table: Seq<Seq<Attempt>>) -> bool {
    &&& table.len() == s.n_stanzas
    &&& forall|i: int| 0 <= i < table.len() ==> (#[trigger] table[i]).len() == s.n_identities
    &&& forall|i: int, j: int|
        0 <= i < table.len() && 0 <= j < table[i].len() ==> !(#[trigger] table[i][j] is Failed)
}

/// The shares gathered plus the stanzas still ahead that some identity opens:
/// how many shares the scan holds once every stanza is passed.
pub open spec fn reachable(s: Scan, table: Seq<Seq<Attempt>>) -> nat {
    s.shares@.len() + (if s.stanza < table.len() && opens(table[s.stanza as int], s.identity as int) {
        1nat
    } else {
        0nat
    }) + count_open(table, s.stanza + 1)
}

impl Scan {
    /// The positions of the gathered shares.
    pub open spec fn indices(&self) -> Seq<nat> {
        self.shares@.map_values(|s: Share| s.index as nat)
    }

    pub open spec fn wf(&self) -> bool {
        &&& self.stanza <= self.n_stanzas
        &&& (self.stanza < self.n_stanzas ==> self.identity < self.n_identities)
        &&& self.shares@.len() <= self.threshold
        &&& self.shares@.len() <= self.stanza
        &&& forall|k: int|
            0 <= k < self.shares@.len() ==> 1 <= #[trigger] self.shares@[k].index <= self.stanza
        &&& forall|j: int, k: int|
            0 <= j < k < self.shares@.len() ==> self.shares@[j].index < self.shares@[k].index
    }

    /// The step that a scan in this state takes next.
    pub open spec fn next_spec(&self) -> Step {
        if self.shares@.len() >= self.threshold {
            Step::Reconstruct
        } else if self.stanza >= self.n_stanzas || self.n_identities == 0 {
            Step::NotEnoughShares
        } else {
            Step::Attempt { stanza: self.stanza, identity: self.identity }
        }
    }

    /// A scan that has tried nothing yet.
    pub fn new(threshold: usize, n_stanzas: usize, n_identities: usize) -> (r: Scan)
        ensures
            r.wf(),
            r.threshold == threshold,
            r.n_stanzas == n_stanzas,
            r.n_identities == n_identities,
            r.shares@.len() == 0,
            r.stanza == (if n_identities == 0 { n_stanzas } else { 0 }),
            r.identity == 0,
    {
        Scan {
            threshold,
            n_stanzas,
            n_identities,
            stanza: if n_identities == 0 { n_stanzas } else { 0 },
            identity: 0,
            shares: Vec::new(),
        }
    }

    /// The step to take next: reconstruct as soon as the threshold is met,
    /// give up once every stanza was tried, else the next attempt.
    pub fn next(&self) -> (r: Step)
        requires
            self.wf(),
        ensures
            r == self.next_spec(),
    {
        if self.shares.len() >= self.threshold {
            Step::Reconstruct
        } else if self.stanza >= self.n_stanzas || self.n_identities == 0 {
            Step::NotEnoughShares
        } else {
            Step::Attempt { stanza: self.stanza, identity: self.identity }
        }
    }

    /// Takes in the outcome of the attempt that `next` asked for. A failure
    /// ends the scan with `UnwrapError` and leaves the state as it was; a
    /// recovered key becomes the share of the current stanza and the scan moves
    /// to the next stanza; otherwise the next identity is tried, and after the
    /// last one the next stanza.
    pub fn record(&mut self, attempt: Attempt) -> (r: Result<(), ReconstructError>)
        requires
            old(self).wf(),
            old(self).next_spec() is Attempt,
        ensures
            final(self).wf(),
            final(self).threshold == old(self).threshold,
            final(self).n_stanzas == old(self).n_stanzas,
            final(self).n_identities == old(self).n_identities,
            !(attempt is Failed) ==> recorded(*old(self), attempt, *final(self)),
            match attempt {
                Attempt::Failed => r == Err::<(), ReconstructError>(ReconstructError::UnwrapError)
                    && *final(self) == *old(self),
                Attempt::Recovered(key) => r is Ok
                    && final(self).shares@ == old(self).shares@.push(
                        Share { index: (old(self).stanza + 1) as usize, key },
                    )
                    && final(self).stanza == old(self).stanza + 1
                    && final(self).identity == 0,
                Attempt::NotMine => r is Ok
                    && final(self).shares@ == old(self).shares@
                    && if old(self).identity + 1 < old(self).n_identities {
                        final(self).stanza == old(self).stanza
                            && final(self).identity == old(self).identity + 1
                    } else {
                        final(self).stanza == old(self).stanza + 1
                            && final(self).identity == 0
                    },
            },
    {
        match attempt {
            Attempt::Failed => Err(ReconstructError::UnwrapError),
            Attempt::Recovered(key) => {
                let index = self.stanza + 1;
                self.shares.push(Share { index, key });
                self.stanza = index;
                self.identity = 0;
                Ok(())
            },
            Attempt::NotMine => {
                if self.identity + 1 < self.n_identities {
                    self.identity = self.identity + 1;
                } else {
                    self.stanza = self.stanza + 1;
                    self.identity = 0;
                }
                Ok(())
            },
        }
    }

    /// Ends a scan whose next step is `Reconstruct`, handing out the shares.
    pub fn into_shares(self) -> (r: Vec<Share>)
        requires
            self.wf(),
        ensures
            r@ == self.shares@,
    {
        self.shares
    }
}

/// A scan reconstructs exactly when it holds at least the threshold of
/// shares: with fewer it never hands out a result, and when it gives up it
/// holds fewer than the threshold.
pub proof fn lemma_reconstruct_needs_threshold(s: Scan)
    requires
        s.wf(),
    ensures
        (s.next_spec() == Step::Reconstruct) <==> s.shares@.len() >= s.threshold,
        s.next_spec() == Step::NotEnoughShares ==> s.shares@.len() < s.threshold && (s.stanza
            == s.n_stanzas || s.n_identities == 0),
{
}

/// Once the threshold of shares is gathered the scan asks for no further
/// attempt, and every attempt it asks for names an existing stanza and identity.
pub proof fn lemma_early_stop(s: Scan)
    requires
        s.wf(),
    ensures
        s.shares@.len() >= s.threshold ==> !(s.next_spec() is Attempt),
        s.next_spec() matches Step::Attempt { stanza, identity } ==> stanza < s.n_stanzas
            && identity < s.n_identities && s.shares@.len() < s.threshold,
{
}

/// The gathered shares carry distinct positions, each that of a stanza
/// already passed.
pub proof fn lemma_share_indices(s: Scan)
    requires
        s.wf(),
    ensures
        forall|j: int, k: int|
            0 <= j < s.shares@.len() && 0 <= k < s.shares@.len() && j != k ==> s.shares@[j].index
                != s.shares@[k].index,
        forall|k: int| 0 <= k < s.shares@.len() ==> 1 <= #[trigger] s.shares@[k].index <= s.n_stanzas,
{
}

/// At the start, the shares within reach are those of every stanza that
/// some identity opens.
pub proof fn lemma_reachable_at_start(s: Scan, table: Seq<Seq<Attempt>>)
    requires
        s.wf(),
        follows(s, table),
        s.shares@.len() == 0,
        s.stanza == (if s.n_identities == 0 { s.n_stanzas } else { 0 }),
        s.identity == 0,
    ensures
        reachable(s, table) == count_open(table, 0),
{
    if s.n_identities == 0 {
        lemma_count_open_none(table, 0);
    }
}

proof fn lemma_count_open_none(table: Seq<Seq<Attempt>>, from: int)
    requires
        0 <= from,
        forall|i: int| 0 <= i < table.len() ==> (#[trigger] table[i]).len() == 0,
    ensures
        count_open(table, from) == 0,
    decreases table.len() - from,
{
    if from < table.len() {
        assert(!opens(table[from], 0));
        lemma_count_open_none(table, from + 1);
    }
}

/// Taking in what the current identity made of the current stanza keeps the
/// number of shares within reach: a share is either gathered or still ahead.
pub proof fn lemma_record_keeps_reachable(
    s: Scan,
    table: Seq<Seq<Attempt>>,
    a: Attempt,
    t: Scan,
)
    requires
        s.wf(),
        follows(s, table),
        s.next_spec() is Attempt,
        a == table[s.stanza as int][s.identity as int],
        recorded(s, a, t),
    ensures
        reachable(t, table) == reachable(s, table),
{
    let row = table[s.stanza as int];
    let i = s.identity as int;
    assert(!(row[i] is Failed));
    if a is Recovered {
        assert(opens(row, i));
    } else {
        if s.identity + 1 < s.n_identities {
            if opens(row, i) {
                let j = choose|j: int| i <= j < row.len() && #[trigger] row[j] is Recovered;
                assert(j != i);
                assert(opens(row, i + 1));
            }
        } else {
            if opens(row, i) {
                let j = choose|j: int| i <= j < row.len() && #[trigger] row[j] is Recovered;
                assert(j == i);
            }
        }
    }
}

/// With at least the threshold of shares within reach, the scan never gives
/// up: every subset of identities that opens enough stanzas reconstructs.
pub proof fn lemma_enough_reachable_never_gives_up(s: Scan, table: Seq<Seq<Attempt>>)
    requires
        s.wf(),
        follows(s, table),
        reachable(s, table) >= s.threshold,
    ensures
        s.next_spec() != Step::NotEnoughShares,
{
    if s.next_spec() == Step::NotEnoughShares {
        assert(s.stanza == s.n_stanzas);
    }
}

/// With fewer than the threshold of shares within reach, the scan never
/// reconstructs: a subset of identities that opens too few stanzas fails.
pub proof fn lemma_too_few_reachable_never_reconstructs(s: Scan, table: Seq<Seq<Attempt>>)
    requires
        s.wf(),
        follows(s, table),
        reachable(s, table) < s.threshold,
    ensures
        s.next_spec() != Step::Reconstruct,
{
}

} // verus!
