//! The envelope: a `threshold` stanza, the wrapped-share stanzas in order, and
//! the `---` terminator.
use vstd::prelude::*;
use vstd::slice::slice_subrange;

use crate::decimal::{decimal_arg_value, decimal_text, format_decimal, parse_decimal};
use crate::stanza::{
    args_view, models, read_stanza, stanza_encoding, stanza_read, write_stanza, Stanza,
    StanzaModel, StanzaRead,
};

verus! {

/// A parsed envelope: the declared threshold and the share stanzas in order.
pub struct Prelude {
    pub threshold: usize,
    pub stanzas: Vec<Stanza>,
}

/// Why an envelope could not be read.
#[derive(PartialEq, Eq, Structural, Debug, Clone, Copy)]
pub enum FormatError {
    /// The first stanza is not a `threshold` stanza.
    UnexpectedTag,
    /// The threshold argument is missing, not a decimal number, or too large.
    InvalidThreshold,
    /// The input ends before the terminator.
    UnexpectedEof,
    /// Where a stanza or the terminator should start, neither does.
    Malformed,
}

/// The tag of the first stanza of an envelope.
pub open spec fn threshold_tag() -> Seq<char> {
    seq!['t', 'h', 'r', 'e', 's', 'h', 'o', 'l', 'd']
}

/// The three bytes `---` that end an envelope.
pub open spec fn terminator() -> Seq<u8> {
    seq![45u8, 45u8, 45u8]
}

/// The bytes of the share stanzas `s`, one after the other.
pub open spec fn stanzas_bytes(s: Seq<StanzaModel>) -> Seq<u8>
    decreases s.len(),
{
    if s.len() == 0 {
        Seq::empty()
    } else {
        stanzas_bytes(s.drop_last()) + stanza_encoding(s.last().0, s.last().1, s.last().2)
    }
}

/// The bytes of the envelope for threshold `t` and share stanzas `s`.
pub open spec fn envelope_bytes(t: nat, s: Seq<StanzaModel>) -> Seq<u8> {
    stanza_encoding(threshold_tag(), seq![decimal_text(t)], Seq::empty()) + stanzas_bytes(s)
        + terminator()
}

/// `b` starts with the terminator.
pub open spec fn starts_with_terminator(b: Seq<u8>) -> bool {
    b.len() >= 3 && b.take(3) == terminator()
}

/// `b` is shorter than the terminator and could still become it.
pub open spec fn within_terminator(b: Seq<u8>) -> bool {
    b.len() < 3 && b == terminator().take(b.len() as int)
}

/// Puts the stanzas `pre` in front of the stanzas of a parse result.
pub open spec fn prepend(pre: Seq<StanzaModel>, r: Result<(Seq<StanzaModel>, nat), FormatError>) -> Result<
    (Seq<StanzaModel>, nat),
    FormatError,
> {
    match r {
        Ok((s, rest)) => Ok((pre + s, rest)),
        Err(e) => Err(e),
    }
}

/// Reads share stanzas from `b` up to the terminator: the stanzas, and the
/// number of bytes after the terminator.
pub open spec fn parse_stanzas(b: Seq<u8>) -> Result<(Seq<StanzaModel>, nat), FormatError>
    decreases b.len(),
{
    if starts_with_terminator(b) {
        Ok((Seq::empty(), (b.len() - 3) as nat))
    } else if within_terminator(b) {
        Err(FormatError::UnexpectedEof)
    } else {
        match stanza_read(b) {
            None => Err(FormatError::Malformed),
            Some(None) => Err(FormatError::UnexpectedEof),
            Some(Some((tag, args, body, rest))) => if rest < b.len() {
                prepend(seq![(tag, args, body)], parse_stanzas(b.skip(b.len() - rest)))
            } else {
                Err(FormatError::Malformed)
            },
        }
    }
}

/// Reads an envelope from the front of `b`: its threshold, its share stanzas,
/// and the number of bytes after it.
pub open spec fn parse_envelope(b: Seq<u8>) -> Result<(nat, Seq<StanzaModel>, nat), FormatError> {
    match stanza_read(b) {
        None => Err(FormatError::Malformed),
        Some(None) => Err(FormatError::UnexpectedEof),
        Some(Some((tag, args, body, rest))) => if tag != threshold_tag() {
            Err(FormatError::UnexpectedTag)
        } else if args.len() == 0 {
            Err(FormatError::InvalidThreshold)
        } else {
            match decimal_arg_value(args[0]) {
                Some(t) => if t <= usize::MAX && rest <= b.len() {
                    match parse_stanzas(b.skip(b.len() - rest)) {
                        Ok((s, left)) => Ok((t, s, left)),
                        Err(e) => Err(e),
                    }
                } else {
                    Err(FormatError::InvalidThreshold)
                },
                None => Err(FormatError::InvalidThreshold),
            }
        },
    }
}

/// An input whose first stanza is not tagged `threshold` is refused with
/// `UnexpectedTag`.
pub proof fn lemma_tag_integrity(b: Seq<u8>)
    requires
        stanza_read(b) matches Some(Some((tag, args, body, rest))) && tag != threshold_tag(),
    ensures
        parse_envelope(b) == Err::<(nat, Seq<StanzaModel>, nat), FormatError>(
            FormatError::UnexpectedTag,
        ),
{
}

/// Share stanzas cut off where the terminator begins, or inside it, are
/// refused with `UnexpectedEof`, not read as a complete, shorter list.
pub proof fn lemma_cut_at_terminator(b: Seq<u8>, j: int)
    requires
        0 <= j < 3,
        j <= b.len(),
        starts_with_terminator(b),
    ensures
        parse_stanzas(b.take(j)) == Err::<(Seq<StanzaModel>, nat), FormatError>(
            FormatError::UnexpectedEof,
        ),
{
    assert(b.take(3)[0] == b[0] && b.take(3)[1] == b[1] && b.take(3)[2] == b[2]);
    assert(b.take(j) =~= terminator().take(j));
}

/// The stanza codec reads back the stanza `m` from the front of its own
/// encoding, whatever follows it, and that encoding begins with `->`.
pub open spec fn reads_back(m: StanzaModel) -> bool {
    &&& stanza_encoding(m.0, m.1, m.2).len() >= 3
    &&& stanza_encoding(m.0, m.1, m.2)[1] == 62u8
    &&& forall|rest: Seq<u8>|
        #[trigger] stanza_read(stanza_encoding(m.0, m.1, m.2) + rest) == Some(
            Some((m.0, m.1, m.2, rest.len())),
        )
}

proof fn lemma_stanzas_bytes_front(s: Seq<StanzaModel>)
    requires
        s.len() > 0,
    ensures
        stanzas_bytes(s) == stanza_encoding(s[0].0, s[0].1, s[0].2) + stanzas_bytes(
            s.drop_first(),
        ),
    decreases s.len(),
{
    if s.len() == 1 {
        assert(s.drop_last() =~= Seq::<StanzaModel>::empty());
        assert(s.drop_first() =~= Seq::<StanzaModel>::empty());
    } else {
        lemma_stanzas_bytes_front(s.drop_last());
        assert(s.drop_last().drop_first() =~= s.drop_first().drop_last());
        assert(s.drop_first().last() == s.last());
    }
}

proof fn lemma_parse_stanzas_written(s: Seq<StanzaModel>, tail: Seq<u8>)
    requires
        forall|i: int| 0 <= i < s.len() ==> reads_back(#[trigger] s[i]),
    ensures
        parse_stanzas(stanzas_bytes(s) + terminator() + tail) == Ok::<
            (Seq<StanzaModel>, nat),
            FormatError,
        >((s, tail.len())),
    decreases s.len(),
{
    let b = stanzas_bytes(s) + terminator() + tail;
    if s.len() == 0 {
        assert(b =~= terminator() + tail);
        assert(b.take(3) =~= terminator());
        assert(starts_with_terminator(b));
        assert(b.len() - 3 == tail.len());
        assert(s =~= Seq::<StanzaModel>::empty());
    } else {
        lemma_stanzas_bytes_front(s);
        let m = s[0];
        assert(reads_back(m));
        let e = stanza_encoding(m.0, m.1, m.2);
        let r = stanzas_bytes(s.drop_first()) + terminator() + tail;
        assert(b =~= e + r);
        assert(b.take(3)[1] == e[1]);
        assert(!starts_with_terminator(b));
        assert(!within_terminator(b));
        assert(stanza_read(e + r) == Some(Some((m.0, m.1, m.2, r.len()))));
        assert(b.skip(b.len() - r.len()) =~= r);
        assert forall|i: int| 0 <= i < s.drop_first().len() implies reads_back(
            #[trigger] s.drop_first()[i],
        ) by {
            assert(s.drop_first()[i] == s[i + 1]);
        }
        lemma_parse_stanzas_written(s.drop_first(), tail);
        assert(seq![(m.0, m.1, m.2)] + s.drop_first() =~= s);
        assert(parse_stanzas(b) == prepend(seq![(m.0, m.1, m.2)], parse_stanzas(r)));
    }
}

/// Reading an envelope back gives the threshold and the stanzas it was
/// written with, and every byte after it, as long as the stanza codec reads
/// back each stanza from its own encoding.
pub proof fn lemma_round_trip_given_codec(t: usize, s: Seq<StanzaModel>, tail: Seq<u8>)
    requires
        reads_back((threshold_tag(), seq![decimal_text(t as nat)], Seq::empty())),
        forall|i: int| 0 <= i < s.len() ==> reads_back(#[trigger] s[i]),
    ensures
        parse_envelope(envelope_bytes(t as nat, s) + tail) == Ok::<
            (nat, Seq<StanzaModel>, nat),
            FormatError,
        >((t as nat, s, tail.len())),
{
    let h = stanza_encoding(threshold_tag(), seq![decimal_text(t as nat)], Seq::empty());
    let r = stanzas_bytes(s) + terminator() + tail;
    let b = envelope_bytes(t as nat, s) + tail;
    assert(b =~= h + r);
    assert(stanza_read(h + r) == Some(
        Some((threshold_tag(), seq![decimal_text(t as nat)], Seq::<u8>::empty(), r.len())),
    ));
    crate::decimal::lemma_decimal_round_trip(t as nat);
    assert(b.skip(b.len() - r.len()) =~= r);
    lemma_parse_stanzas_written(s, tail);
}

/// The stanza codec reports every proper prefix of the encoding of `m` as a
/// stanza that is not complete yet.
pub open spec fn cut_incomplete(m: StanzaModel) -> bool {
    forall|k: int|
        0 <= k < stanza_encoding(m.0, m.1, m.2).len() ==> #[trigger] stanza_read(
            stanza_encoding(m.0, m.1, m.2).take(k),
        ) == Some(None::<(Seq<char>, Seq<Seq<char>>, Seq<u8>, nat)>)
}

proof fn lemma_parse_stanzas_cut(s: Seq<StanzaModel>, k: int)
    requires
        forall|i: int| 0 <= i < s.len() ==> reads_back(#[trigger] s[i]),
        forall|i: int| 0 <= i < s.len() ==> cut_incomplete(#[trigger] s[i]),
        0 <= k < (stanzas_bytes(s) + terminator()).len(),
    ensures
        parse_stanzas((stanzas_bytes(s) + terminator()).take(k)) == Err::<
            (Seq<StanzaModel>, nat),
            FormatError,
        >(FormatError::UnexpectedEof),
    decreases s.len(),
{
    let all = stanzas_bytes(s) + terminator();
    let b = all.take(k);
    if s.len() == 0 {
        assert(all =~= terminator());
        assert(b =~= terminator().take(k));
    } else {
        lemma_stanzas_bytes_front(s);
        let m = s[0];
        assert(reads_back(m) && cut_incomplete(m));
        let e = stanza_encoding(m.0, m.1, m.2);
        let r = stanzas_bytes(s.drop_first()) + terminator();
        assert(all =~= e + r);
        if k < e.len() {
            assert(b =~= e.take(k));
            if !within_terminator(b) {
                if k >= 3 {
                    assert(b.take(3)[1] == e[1]);
                }
                assert(!starts_with_terminator(b));
                assert(stanza_read(e.take(k)) == Some(
                    None::<(Seq<char>, Seq<Seq<char>>, Seq<u8>, nat)>,
                ));
            }
        } else {
            let r2 = r.take(k - e.len());
            assert(b =~= e + r2);
            assert(b.take(3)[1] == e[1]);
            assert(!starts_with_terminator(b));
            assert(!within_terminator(b));
            assert(stanza_read(e + r2) == Some(Some((m.0, m.1, m.2, r2.len()))));
            assert(b.skip(b.len() - r2.len()) =~= r2);
            assert forall|i: int| 0 <= i < s.drop_first().len() implies reads_back(
                #[trigger] s.drop_first()[i],
            ) && cut_incomplete(s.drop_first()[i]) by {
                assert(s.drop_first()[i] == s[i + 1]);
            }
            lemma_parse_stanzas_cut(s.drop_first(), k - e.len());
        }
    }
}

/// Every proper prefix of an envelope is refused with `UnexpectedEof`, never
/// read as a shorter list of stanzas, as long as the stanza codec reads back
/// each stanza from its own encoding and reports each cut-off stanza as not
/// complete yet.
pub proof fn lemma_truncation_given_codec(t: usize, s: Seq<StanzaModel>, k: int)
    requires
        reads_back((threshold_tag(), seq![decimal_text(t as nat)], Seq::empty())),
        cut_incomplete((threshold_tag(), seq![decimal_text(t as nat)], Seq::empty())),
        forall|i: int| 0 <= i < s.len() ==> reads_back(#[trigger] s[i]),
        forall|i: int| 0 <= i < s.len() ==> cut_incomplete(#[trigger] s[i]),
        0 <= k < envelope_bytes(t as nat, s).len(),
    ensures
        parse_envelope(envelope_bytes(t as nat, s).take(k)) == Err::<
            (nat, Seq<StanzaModel>, nat),
            FormatError,
        >(FormatError::UnexpectedEof),
{
    let h = stanza_encoding(threshold_tag(), seq![decimal_text(t as nat)], Seq::empty());
    let r = stanzas_bytes(s) + terminator();
    let b = envelope_bytes(t as nat, s).take(k);
    assert(envelope_bytes(t as nat, s) =~= h + r);
    if k < h.len() {
        assert(b =~= h.take(k));
    } else {
        let r2 = r.take(k - h.len());
        assert(b =~= h + r2);
        assert(stanza_read(h + r2) == Some(
            Some((threshold_tag(), seq![decimal_text(t as nat)], Seq::<u8>::empty(), r2.len())),
        ));
        crate::decimal::lemma_decimal_round_trip(t as nat);
        assert(b.skip(b.len() - r2.len()) =~= r2);
        lemma_parse_stanzas_cut(s, k - h.len());
    }
}

fn text_eq(a: &str, b: &str) -> (r: bool)
    ensures
        r == (a@ == b@),
{
    let n = a.unicode_len();
    if n != b.unicode_len() {
        return false;
    }
    let mut i: usize = 0;
    while i < n
        invariant
            i <= n,
            n == a@.len(),
            n == b@.len(),
            a@.take(i as int) == b@.take(i as int),
        decreases n - i,
    {
        if a.get_char(i) != b.get_char(i) {
            return false;
        }
        assert(a@.take(i + 1) =~= a@.take(i as int).push(a@[i as int]));
        assert(b@.take(i + 1) =~= b@.take(i as int).push(b@[i as int]));
        i = i + 1;
    }
    assert(a@ =~= a@.take(n as int));
    assert(b@ =~= b@.take(n as int));
    true
}

/// Writes the envelope for threshold `threshold` and the share stanzas
/// `stanzas`, in their order.
pub fn serialize(threshold: usize, stanzas: &Vec<Stanza>) -> (r: Vec<u8>)
    ensures
        r@ == envelope_bytes(threshold as nat, models(stanzas@)),
{
    let tag = "threshold";
    proof {
        reveal_strlit("threshold");
    }
    assert(tag@ =~= threshold_tag());
    let args = vec![format_decimal(threshold)];
    assert(args_view(args@) =~= seq![decimal_text(threshold as nat)]);
    let mut out = write_stanza(tag, &args, &Vec::new());
    let ghost head = out@;
    let mut i: usize = 0;
    while i < stanzas.len()
        invariant
            i <= stanzas@.len(),
            out@ == head + stanzas_bytes(models(stanzas@.take(i as int))),
        decreases stanzas@.len() - i,
    {
        let s = &stanzas[i];
        let mut bytes = write_stanza(&s.tag, &s.args, &s.body);
        proof {
            let m = models(stanzas@.take(i + 1));
            assert(m.drop_last() =~= models(stanzas@.take(i as int)));
            assert(m.last() == s.model());
        }
        out.append(&mut bytes);
        i = i + 1;
    }
    assert(stanzas@.take(stanzas@.len() as int) =~= stanzas@);
    out.push(45u8);
    out.push(45u8);
    out.push(45u8);
    assert(out@ =~= envelope_bytes(threshold as nat, models(stanzas@)));
    out
}

/// Reads an envelope from the front of `input`. On success gives the
/// envelope and the number of bytes it took up; where the input ends before
/// the terminator, `UnexpectedEof`, so that a caller with more bytes to come
/// can read them and try again.
pub fn parse(input: &[u8]) -> (r: Result<(Prelude, usize), FormatError>)
    ensures
        match r {
            Ok((p, used)) => used <= input@.len() && parse_envelope(input@) == Ok::<
                (nat, Seq<StanzaModel>, nat),
                FormatError,
            >((p.threshold as nat, models(p.stanzas@), (input@.len() - used) as nat)),
            Err(e) => parse_envelope(input@) == Err::<(nat, Seq<StanzaModel>, nat), FormatError>(
                e,
            ),
        },
{
    let first = read_stanza(input);
    let (head, rest) = match first {
        StanzaRead::Invalid => {
            return Err(FormatError::Malformed);
        },
        StanzaRead::Incomplete => {
            return Err(FormatError::UnexpectedEof);
        },
        StanzaRead::Parsed { stanza, rest } => (stanza, rest),
    };
    let tag = "threshold";
    proof {
        reveal_strlit("threshold");
    }
    assert(tag@ =~= threshold_tag());
    if !text_eq(head.tag.as_str(), tag) {
        return Err(FormatError::UnexpectedTag);
    }
    if head.args.len() == 0 {
        return Err(FormatError::InvalidThreshold);
    }
    let threshold = match parse_decimal(head.args[0].as_str()) {
        Some(t) => t,
        None => {
            return Err(FormatError::InvalidThreshold);
        },
    };
    let start = input.len() - rest;
    match parse_stanzas_from(input, start) {
        Ok((stanzas, used)) => Ok((Prelude { threshold, stanzas }, used)),
        Err(e) => Err(e),
    }
}

/// Reads share stanzas of `input` from position `start` up to and including
/// the terminator, giving them and the position just after the terminator.
fn parse_stanzas_from(input: &[u8], start: usize) -> (r: Result<(Vec<Stanza>, usize), FormatError>)
    requires
        start <= input@.len(),
    ensures
        match r {
            Ok((s, end)) => start <= end <= input@.len() && parse_stanzas(input@.skip(start as int))
                == Ok::<(Seq<StanzaModel>, nat), FormatError>(
                (models(s@), (input@.len() - end) as nat),
            ),
            Err(e) => parse_stanzas(input@.skip(start as int)) == Err::<
                (Seq<StanzaModel>, nat),
                FormatError,
            >(e),
        },
{
    let n = input.len();
    let mut acc: Vec<Stanza> = Vec::new();
    let mut pos: usize = start;
    loop
        invariant
            start <= pos <= n,
            n == input@.len(),
            parse_stanzas(input@.skip(start as int)) == prepend(
                models(acc@),
                parse_stanzas(input@.skip(pos as int)),
            ),
        decreases n - pos,
    {
        let ghost b = input@.skip(pos as int);
        let left = n - pos;
        if left >= 3 && input[pos] == 45u8 && input[pos + 1] == 45u8 && input[pos + 2] == 45u8 {
            assert(b.take(3) =~= terminator());
            assert(models(acc@) + Seq::<StanzaModel>::empty() =~= models(acc@));
            return Ok((acc, pos + 3));
        }
        assert(!starts_with_terminator(b)) by {
            if b.len() >= 3 && b.take(3) == terminator() {
                assert(b.take(3)[0] == input@[pos as int]);
                assert(b.take(3)[1] == input@[pos + 1]);
                assert(b.take(3)[2] == input@[pos + 2]);
            }
        }
        if left < 3 && (left == 0 || (input[pos] == 45u8 && (left == 1 || input[pos + 1] == 45u8))) {
            assert(b =~= terminator().take(b.len() as int));
            return Err(FormatError::UnexpectedEof);
        }
        assert(!within_terminator(b)) by {
            if b.len() < 3 && b == terminator().take(b.len() as int) {
                if b.len() >= 1 {
                    assert(b[0] == input@[pos as int]);
                }
                if b.len() >= 2 {
                    assert(b[1] == input@[pos + 1]);
                }
            }
        }
        let tail = slice_subrange(input, pos, n);
        assert(tail@ =~= b);
        match read_stanza(tail) {
            StanzaRead::Invalid => {
                return Err(FormatError::Malformed);
            },
            StanzaRead::Incomplete => {
                return Err(FormatError::UnexpectedEof);
            },
            StanzaRead::Parsed { stanza, rest } => {
                let ghost m = stanza.model();
                let ghost old_acc = acc@;
                let next = n - rest;
                proof {
                    assert(b.skip(b.len() - rest) =~= input@.skip(next as int));
                    assert(models(old_acc.push(stanza)) =~= models(old_acc) + seq![m]);
                    match parse_stanzas(input@.skip(next as int)) {
                        Ok((s, k)) => {
                            assert(models(old_acc) + (seq![m] + s) =~= (models(old_acc) + seq![m])
                                + s);
                        },
                        Err(e) => {},
                    }
                }
                acc.push(stanza);
                pos = next;
            },
        }
    }
}

} // verus!
