use threshold_envelope::distribute::{
    build_envelope, choose_threshold, collect_wrapped, default_threshold, DistributeError,
};
use threshold_envelope::envelope::serialize;
use threshold_envelope::stanza::Stanza;

fn stanza(tag: &str, body: &[u8]) -> Stanza {
    Stanza { tag: tag.to_string(), args: vec!["a".to_string()], body: body.to_vec() }
}

#[test]
fn default_policy_is_simple_majority() {
    assert_eq!(default_threshold(0), 1);
    assert_eq!(default_threshold(1), 1);
    assert_eq!(default_threshold(2), 2);
    assert_eq!(default_threshold(3), 2);
    assert_eq!(default_threshold(4), 3);
    assert_eq!(default_threshold(5), 3);
}

#[test]
fn threshold_above_recipient_count_is_refused() {
    assert_eq!(choose_threshold(3, Some(4)), Err(DistributeError::NotEnoughRecipients));
}

#[test]
fn threshold_choices() {
    assert_eq!(choose_threshold(3, Some(3)), Ok(3));
    assert_eq!(choose_threshold(3, None), Ok(2));
    assert_eq!(choose_threshold(0, None), Err(DistributeError::NotEnoughRecipients));
    assert_eq!(choose_threshold(4, Some(0)), Err(DistributeError::ZeroThreshold));
}

#[test]
fn wrapping_must_give_one_stanza_each() {
    let two = vec![vec![stanza("X", &[1])], vec![stanza("Y", &[2]), stanza("Z", &[3])]];
    assert_eq!(collect_wrapped(two).err(), Some(DistributeError::WrapProducedUnexpectedStanzaCount));
    let none = vec![vec![stanza("X", &[1])], vec![]];
    assert_eq!(collect_wrapped(none).err(), Some(DistributeError::WrapProducedUnexpectedStanzaCount));
}

#[test]
fn wrapped_stanzas_keep_recipient_order() {
    let w = vec![vec![stanza("A", &[1])], vec![stanza("B", &[2])], vec![stanza("C", &[3])]];
    let s = collect_wrapped(w).unwrap();
    let tags: Vec<&str> = s.iter().map(|x| x.tag.as_str()).collect();
    assert_eq!(tags, vec!["A", "B", "C"]);
    assert_eq!(s[2].body, vec![3]);
}

#[test]
fn envelope_from_wrapped_stanzas() {
    let w = vec![vec![stanza("A", &[1])], vec![stanza("B", &[2])]];
    let expect = serialize(2, &vec![stanza("A", &[1]), stanza("B", &[2])]);
    assert_eq!(build_envelope(2, w).unwrap(), expect);
    let bad = vec![vec![stanza("A", &[1])], vec![]];
    assert_eq!(build_envelope(2, bad).err(), Some(DistributeError::WrapProducedUnexpectedStanzaCount));
}
