//! Stanzas, the age header records that each carry one wrapped share, and the
//! calls into age-core that read and write them.
use vstd::prelude::*;

verus! {

/// One header record: a tag, its arguments and a binary body.
pub struct Stanza {
    pub tag: String,
    pub args: Vec<String>,
    pub body: Vec<u8>,
}

/// A stanza as values: tag, arguments, body.
pub type StanzaModel = (Seq<char>, Seq<Seq<char>>, Seq<u8>);

/// The arguments of a stanza as character sequences.
pub open spec fn args_view(args: Seq<String>) -> Seq<Seq<char>> {
    args.map_values(|a: String| a@)
}

impl Stanza {
    pub open spec fn model(&self) -> StanzaModel {
        (self.tag@, args_view(self.args@), self.body@)
    }
}

/// The stanzas of `s` as values.
pub open spec fn models(s: Seq<Stanza>) -> Seq<StanzaModel> {
    s.map_values(|x: Stanza| x.model())
}

/// The bytes that age-core writes for a stanza with this tag, these arguments
/// and this body.
pub uninterp spec fn stanza_encoding(tag: Seq<char>, args: Seq<Seq<char>>, body: Seq<u8>) -> Seq<
    u8,
>;

/// What age-core's stanza reader makes of the bytes `input`: `None` when they
/// do not start with a stanza, `Some(None)` when they end inside one, and
/// otherwise the stanza read and the number of bytes left after it.
pub uninterp spec fn stanza_read(input: Seq<u8>) -> Option<
    Option<(Seq<char>, Seq<Seq<char>>, Seq<u8>, nat)>,
>;

/// The outcome of reading one stanza from the front of a byte slice.
pub enum StanzaRead {
    /// A whole stanza, and the number of bytes that follow it.
    Parsed { stanza: Stanza, rest: usize },
    /// The input ends inside a stanza: more bytes are needed.
    Incomplete,
    /// The input does not start with a stanza.
    Invalid,
}

impl StanzaRead {
    pub open spec fn view(&self) -> Option<Option<(Seq<char>, Seq<Seq<char>>, Seq<u8>, nat)>> {
        match self {
            StanzaRead::Parsed { stanza, rest } => Some(
                Some((stanza.tag@, args_view(stanza.args@), stanza.body@, *rest as nat)),
            ),
            StanzaRead::Incomplete => Some(None),
            StanzaRead::Invalid => None,
        }
    }
}

/// Relies on age_core::format::read::age_stanza, the streaming reader of one
/// stanza: what it returns depends on the input bytes alone, what is left is a
/// suffix of the input, and the `-> ` prefix of a stanza is always consumed.
#[verifier::external_body]
pub(crate) fn read_stanza(input: &[u8]) -> (r: StanzaRead)
    ensures
        r@ == stanza_read(input@),
        r matches StanzaRead::Parsed { rest, .. } ==> rest < input@.len(),
{
    match age_core::format::read::age_stanza(input) {
        Ok((rest, s)) => {
            let s: age_core::format::Stanza = s.into();
            let stanza = Stanza { tag: s.tag, args: s.args, body: s.body };
            StanzaRead::Parsed { stanza, rest: rest.len() }
        },
        Err(nom::Err::Incomplete(_)) => StanzaRead::Incomplete,
        Err(_) => StanzaRead::Invalid,
    }
}

/// Relies on age_core::format::write::age_stanza, run by cookie_factory's
/// gen_simple into a `Vec<u8>`, whose writes cannot fail: the bytes of one
/// stanza.
#[verifier::external_body]
pub(crate) fn write_stanza(tag: &str, args: &Vec<String>, body: &Vec<u8>) -> (r: Vec<u8>)
    ensures
        r@ == stanza_encoding(tag@, args_view(args@), body@),
{
    match cookie_factory::gen_simple(
        age_core::format::write::age_stanza(tag, args.as_slice(), body.as_slice()),
        Vec::new(),
    ) {
        Ok(bytes) => bytes,
        Err(_) => Vec::new(),
    }
}

} // verus!
