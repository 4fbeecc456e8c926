//! The integrity gate: line records pair up as checksum-then-payload, each
//! payload is checked against its CRC-32 checksum, and exactly the verified
//! payloads pass on toward the forwarder, in arrival order.

use vstd::prelude::*;
use crate::tail::LineRecord;
use crate::tail::complete_lines;
use crate::tail::encode_lines;
use crate::tail::line_ok;
use crate::tail::records_view;

verus! {

/// The CRC-32 (IEEE 802.3 polynomial) of a byte sequence, as the checksum
/// crate computes it: a function of the bytes alone, named here rather than
/// spelled out.
pub uninterp spec fn crc32_ieee_of(data: Seq<u8>) -> u32;

/// Relies on crc::crc32::checksum_ieee: the IEEE CRC-32 of the bytes, a
/// pure function of the bytes alone.
#[verifier::external_body]
fn crc32_ieee(data: &Vec<u8>) -> (r: u32)
    ensures
        r == crc32_ieee_of(data@),
{
    crc::crc32::checksum_ieee(data.as_slice())
}

/// An ASCII decimal digit.
pub open spec fn is_digit(b: u8) -> bool {
    48 <= b <= 57
}

/// Every byte of `s` is a decimal digit.
pub open spec fn all_digits(s: Seq<u8>) -> bool {
    forall|k: int| 0 <= k < s.len() ==> is_digit(s[k])
}

/// The value of `s` read as a decimal numeral, most significant digit
/// first.
pub open spec fn dec_value(s: Seq<u8>) -> int
    decreases s.len(),
{
    if s.len() == 0 {
        0
    } else {
        dec_value(s.drop_last()) * 10 + (s.last() - 48)
    }
}

/// `s` is a well-formed checksum text: a non-empty run of decimal digits
/// whose value fits in 32 bits.
pub open spec fn parses_to_u32(s: Seq<u8>) -> bool {
    s.len() > 0 && all_digits(s) && dec_value(s) <= u32::MAX
}

/// A decimal numeral never has a negative value.
pub proof fn lemma_dec_value_nonneg(s: Seq<u8>)
    requires
        all_digits(s),
    ensures
        dec_value(s) >= 0,
    decreases s.len(),
{
    if s.len() > 0 {
        assert(is_digit(s[s.len() - 1]));
        assert forall|k: int| 0 <= k < s.drop_last().len() implies is_digit(s.drop_last()[k]) by {
            assert(s.drop_last()[k] == s[k]);
        }
        lemma_dec_value_nonneg(s.drop_last());
    }
}

/// Extending a numeral with further digits never decreases its value.
pub proof fn lemma_dec_value_prefix_le(s: Seq<u8>, i: int)
    requires
        all_digits(s),
        0 <= i <= s.len(),
    ensures
        dec_value(s.subrange(0, i)) <= dec_value(s),
    decreases s.len() - i,
{
    if i == s.len() {
        assert(s.subrange(0, i) =~= s);
    } else {
        let pre = s.subrange(0, i);
        let p = s.subrange(0, i + 1);
        assert(p.drop_last() =~= pre);
        assert(is_digit(s[i]));
        assert forall|k: int| 0 <= k < pre.len() implies is_digit(pre[k]) by {
            assert(pre[k] == s[k]);
        }
        lemma_dec_value_nonneg(pre);
        assert(dec_value(p) == dec_value(pre) * 10 + (s[i] - 48));
        assert(dec_value(pre) * 10 >= dec_value(pre));
        lemma_dec_value_prefix_le(s, i + 1);
    }
}

/// Parses a byte string as a decimal 32-bit numeral. Returns `Some` exactly
/// when the text is non-empty, all digits, and its value fits in 32 bits;
/// the value returned is the numeral's value.
pub fn parse_u32_dec(s: &Vec<u8>) -> (r: Option<u32>)
    ensures
        match r {
            Some(v) => parses_to_u32(s@) && v == dec_value(s@),
            None => !parses_to_u32(s@),
        },
{
    if s.len() == 0 {
        return None;
    }
    let mut acc: u32 = 0;
    let mut i: usize = 0;
    while i < s.len()
        invariant
            0 < s@.len(),
            i <= s@.len(),
            all_digits(s@.subrange(0, i as int)),
            acc == dec_value(s@.subrange(0, i as int)),
        decreases s@.len() - i,
    {
        let b = s[i];
        if b < 48 || b > 57 {
            proof {
                assert(!is_digit(s@[i as int]));
            }
            return None;
        }
        let d = (b - 48) as u32;
        proof {
            let pre = s@.subrange(0, i as int);
            let p = s@.subrange(0, i + 1);
            assert(p.drop_last() =~= pre);
            assert(p.last() == s@[i as int]);
            assert forall|k: int| 0 <= k < p.len() implies is_digit(p[k]) by {
                if k < i {
                    assert(p[k] == pre[k]);
                } else {
                    assert(p[k] == s@[i as int]);
                }
            }
            assert(dec_value(p) == acc * 10 + d);
        }
        // 429496729 is u32::MAX / 10, with remainder 5: a further digit fits
        // below it always, at it only when the digit is at most 5.
        if acc > 429496729 || (acc == 429496729 && d > 5) {
            proof {
                if all_digits(s@) {
                    lemma_dec_value_prefix_le(s@, i + 1);
                }
            }
            return None;
        }
        acc = acc * 10 + d;
        i += 1;
    }
    proof {
        assert(s@.subrange(0, s@.len() as int) =~= s@);
    }
    Some(acc)
}

/// A checksum/payload pair passes the integrity gate: the checksum line is a
/// well-formed decimal numeral equal to the payload's CRC-32.
pub open spec fn pair_verified(c: Seq<u8>, p: Seq<u8>) -> bool {
    parses_to_u32(c) && dec_value(c) == crc32_ieee_of(p)
}

/// Decides whether a checksum line accepts a computed CRC value.
pub fn checksum_matches(checksum_text: &Vec<u8>, computed: u32) -> (r: bool)
    ensures
        r == (parses_to_u32(checksum_text@) && dec_value(checksum_text@) == computed),
{
    match parse_u32_dec(checksum_text) {
        Some(v) => v == computed,
        None => false,
    }
}

/// Why the integrity gate refused a checksum/payload pair.
#[derive(Clone, Copy, PartialEq, Eq, Structural, Debug)]
pub enum GateError {
    /// The checksum line is not a decimal 32-bit numeral.
    MalformedChecksum,
    /// The checksum parses but differs from the payload's CRC-32.
    ChecksumMismatch,
}

/// Verifies one checksum/payload pair. The payload passes unchanged exactly
/// when the checksum text is a well-formed decimal numeral equal to the
/// payload's CRC-32; otherwise the exact reason comes back.
pub fn verify_checksum(checksum_text: &Vec<u8>, payload: Vec<u8>) -> (r: Result<
    Vec<u8>,
    GateError,
>)
    ensures
        pair_verified(checksum_text@, payload@) ==> (r matches Ok(p) && p@ == payload@),
        !parses_to_u32(checksum_text@) ==> r == Result::<Vec<u8>, GateError>::Err(
            GateError::MalformedChecksum,
        ),
        (parses_to_u32(checksum_text@) && dec_value(checksum_text@) != crc32_ieee_of(payload@))
            ==> r == Result::<Vec<u8>, GateError>::Err(GateError::ChecksumMismatch),
{
    let computed = crc32_ieee(&payload);
    match parse_u32_dec(checksum_text) {
        None => Err(GateError::MalformedChecksum),
        Some(v) => if v == computed {
            Ok(payload)
        } else {
            Err(GateError::ChecksumMismatch)
        },
    }
}

/// The wire view of a batch of checksum/payload pairs: for each pair its
/// checksum line, then its payload line.
pub open spec fn pairs_records(pairs: Seq<(Seq<u8>, Seq<u8>)>) -> Seq<Seq<u8>>
    decreases pairs.len(),
{
    if pairs.len() == 0 {
        Seq::empty()
    } else {
        seq![pairs[0].0, pairs[0].1] + pairs_records(pairs.drop_first())
    }
}

/// Fed alternating checksum/payload pairs, the integrity gate forwards exactly the
/// payloads of the pairs that verify, once each, in their arrival order; a
/// refused pair is dropped without disturbing the pairs after it, and the
/// gate ends with no line held.
pub proof fn lemma_gate_filters_pairs(pairs: Seq<(Seq<u8>, Seq<u8>)>)
    ensures
        forwarded_from(None, pairs_records(pairs)) == pairs.filter(
            (|pr: (Seq<u8>, Seq<u8>)| pair_verified(pr.0, pr.1)),
        ).map_values((|pr: (Seq<u8>, Seq<u8>)| pr.1)),
        pending_after(None, pairs_records(pairs)) is None,
    decreases pairs.len(),
{
    reveal_with_fuel(Seq::<_>::filter, 2);
    let pred = |pr: (Seq<u8>, Seq<u8>)| pair_verified(pr.0, pr.1);
    let proj = |pr: (Seq<u8>, Seq<u8>)| pr.1;
    if pairs.len() == 0 {
        assert(pairs.filter(pred) =~= Seq::<(Seq<u8>, Seq<u8>)>::empty());
        assert(pairs.filter(pred).map_values(proj) =~= Seq::<Seq<u8>>::empty());
    } else {
        let p0 = pairs[0];
        let rest = pairs.drop_first();
        let recs = pairs_records(pairs);
        lemma_gate_filters_pairs(rest);
        assert(recs[0] == p0.0);
        assert(recs.drop_first()[0] == p0.1);
        assert(recs.drop_first().drop_first() =~= pairs_records(rest));
        assert(forwarded_from(None, recs) == forwarded_from(Some(p0.0), recs.drop_first()));
        assert(pending_after(None, recs) == pending_after(Some(p0.0), recs.drop_first()));
        assert(pending_after(Some(p0.0), recs.drop_first()) == pending_after(
            None,
            pairs_records(rest),
        ));
        assert(pairs =~= seq![p0] + rest);
        Seq::filter_distributes_over_add(seq![p0], rest, pred);
        assert(seq![p0].drop_last() =~= Seq::<(Seq<u8>, Seq<u8>)>::empty());
        assert(Seq::<(Seq<u8>, Seq<u8>)>::empty().filter(pred) =~= Seq::<(
            Seq<u8>,
            Seq<u8>,
        )>::empty());
        if pair_verified(p0.0, p0.1) {
            assert(seq![p0].filter(pred) =~= seq![p0]);
            assert(forwarded_from(Some(p0.0), recs.drop_first()) == seq![p0.1] + forwarded_from(
                None,
                pairs_records(rest),
            ));
            assert((seq![p0] + rest.filter(pred)).map_values(proj) =~= seq![p0.1] + rest.filter(
                pred,
            ).map_values(proj));
        } else {
            assert(seq![p0].filter(pred) =~= Seq::<(Seq<u8>, Seq<u8>)>::empty());
            assert(forwarded_from(Some(p0.0), recs.drop_first()) == forwarded_from(
                None,
                pairs_records(rest),
            ));
            assert(pairs.filter(pred) =~= rest.filter(pred));
        }
    }
}

/// Every line of the wire view of `pairs` is one of the pairs' lines, so it
/// holds no newline byte.
pub proof fn lemma_pairs_records_line_ok(pairs: Seq<(Seq<u8>, Seq<u8>)>)
    requires
        forall|j: int| 0 <= j < pairs.len() ==> line_ok(#[trigger] pairs[j].0) && line_ok(
            pairs[j].1,
        ),
    ensures
        forall|j: int|
            0 <= j < pairs_records(pairs).len() ==> line_ok(#[trigger] pairs_records(pairs)[j]),
    decreases pairs.len(),
{
    if pairs.len() > 0 {
        let rest = pairs.drop_first();
        assert forall|j: int| 0 <= j < rest.len() implies line_ok(#[trigger] rest[j].0) && line_ok(
            rest[j].1,
        ) by {
            assert(rest[j] == pairs[j + 1]);
        }
        lemma_pairs_records_line_ok(rest);
        assert forall|j: int| 0 <= j < pairs_records(pairs).len() implies line_ok(
            #[trigger] pairs_records(pairs)[j],
        ) by {
            if j == 0 {
                assert(pairs_records(pairs)[0] == pairs[0].0);
            } else if j == 1 {
                assert(pairs_records(pairs)[1] == pairs[0].1);
            } else {
                assert(pairs_records(pairs)[j] == pairs_records(rest)[j - 2]);
            }
        }
    }
}

/// The pipeline end to end, on the file's own bytes: when the file holds
/// alternating checksum and payload lines, draining it from the start and
/// feeding every record through the integrity gate forwards exactly the
/// payloads whose checksum verifies, once each, in file order.
pub proof fn lemma_file_pairs_forwarded(pairs: Seq<(Seq<u8>, Seq<u8>)>)
    requires
        forall|j: int| 0 <= j < pairs.len() ==> line_ok(#[trigger] pairs[j].0) && line_ok(
            pairs[j].1,
        ),
    ensures
        complete_lines(encode_lines(pairs_records(pairs)), 0) == pairs_records(pairs),
        forwarded_from(None, complete_lines(encode_lines(pairs_records(pairs)), 0))
            == pairs.filter((|pr: (Seq<u8>, Seq<u8>)| pair_verified(pr.0, pr.1))).map_values(
            (|pr: (Seq<u8>, Seq<u8>)| pr.1),
        ),
{
    let recs = pairs_records(pairs);
    lemma_pairs_records_line_ok(pairs);
    crate::tail::lemma_append_complete_lines(Seq::empty(), recs);
    assert(Seq::<u8>::empty() + encode_lines(recs) =~= encode_lines(recs));
    lemma_gate_filters_pairs(pairs);
}

/// The integrity gate's state between records: at most the checksum line that waits
/// for its payload. The two-line protocol means records strictly alternate
/// between this slot being filled and being emptied.
pub struct IntegrityGate {
    pub pending: Option<Vec<u8>>,
}

/// What the integrity gate did with one record.
#[derive(PartialEq, Eq, Debug)]
pub enum GateOutcome {
    /// The record is a checksum line, held until its payload arrives.
    Stored,
    /// The record completed a pair that verified: forward this payload.
    Forward(Vec<u8>),
    /// The record completed a pair that was refused: drop the payload.
    Reject(GateError),
}

/// The payloads the integrity gate forwards when `records` are fed in order, starting
/// with `pending` as the held checksum line: records pair up alternately as
/// checksum-then-payload, and exactly the verified pairs' payloads pass, in
/// arrival order.
pub open spec fn forwarded_from(pending: Option<Seq<u8>>, records: Seq<Seq<u8>>) -> Seq<Seq<u8>>
    decreases records.len(),
{
    if records.len() == 0 {
        Seq::empty()
    } else {
        match pending {
            Option::None => forwarded_from(Option::Some(records[0]), records.drop_first()),
            Option::Some(c) => {
                let rest = forwarded_from(Option::None, records.drop_first());
                if pair_verified(c, records[0]) {
                    seq![records[0]] + rest
                } else {
                    rest
                }
            },
        }
    }
}

/// The checksum line still held after `records` are fed in order.
pub open spec fn pending_after(pending: Option<Seq<u8>>, records: Seq<Seq<u8>>) -> Option<Seq<u8>>
    decreases records.len(),
{
    if records.len() == 0 {
        pending
    } else {
        match pending {
            Option::None => pending_after(Option::Some(records[0]), records.drop_first()),
            Option::Some(_) => pending_after(Option::None, records.drop_first()),
        }
    }
}

impl IntegrityGate {
    /// The held checksum line, as bytes.
    pub open spec fn pending_view(&self) -> Option<Seq<u8>> {
        match self.pending {
            Option::Some(c) => Option::Some(c@),
            Option::None => Option::None,
        }
    }

    /// A gate holding no checksum line yet.
    pub fn new() -> (g: IntegrityGate)
        ensures
            g.pending_view() is None,
    {
        IntegrityGate { pending: None }
    }

    /// Feeds one line record. With no checksum held, the record becomes the
    /// held checksum line; otherwise it is the payload of the held
    /// checksum, and passes exactly when the pair verifies. Either way the
    /// hold alternates, so one bad pair cannot desynchronize later ones.
    pub fn feed(&mut self, record: LineRecord) -> (outcome: GateOutcome)
        ensures
            old(self).pending_view() is None ==> (final(self).pending_view() == Some(record@)
                && outcome is Stored),
            old(self).pending_view() matches Some(c) ==> (final(self).pending_view() is None && (
            pair_verified(c, record@) ==> (outcome matches GateOutcome::Forward(p) && p@
                == record@)) && (!parses_to_u32(c) ==> outcome == GateOutcome::Reject(
                GateError::MalformedChecksum,
            )) && ((parses_to_u32(c) && dec_value(c) != crc32_ieee_of(record@)) ==> outcome
                == GateOutcome::Reject(GateError::ChecksumMismatch))),
    {
        let pending = self.pending.take();
        match pending {
            None => {
                self.pending = Some(record.bytes);
                GateOutcome::Stored
            },
            Some(c) => {
                match verify_checksum(&c, record.bytes) {
                    Ok(p) => GateOutcome::Forward(p),
                    Err(e) => GateOutcome::Reject(e),
                }
            },
        }
    }

    /// Feeds a whole batch of drained records in order and returns the
    /// payloads that passed the integrity gate, in order. Refused pairs are dropped;
    /// an odd record stays held for the next batch.
    pub fn process_batch(&mut self, records: Vec<LineRecord>) -> (passed: Vec<Vec<u8>>)
        ensures
            passed@.map_values(|p: Vec<u8>| p@) == forwarded_from(
                old(self).pending_view(),
                records_view(records@),
            ),
            final(self).pending_view() == pending_after(
                old(self).pending_view(),
                records_view(records@),
            ),
    {
        let ghost p0 = self.pending_view();
        let ghost all = records_view(records@);
        let mut passed: Vec<Vec<u8>> = Vec::new();
        let mut rem = records;
        while rem.len() > 0
            invariant
                forwarded_from(p0, all) == passed@.map_values(|p: Vec<u8>| p@) + forwarded_from(
                    self.pending_view(),
                    records_view(rem@),
                ),
                pending_after(p0, all) == pending_after(self.pending_view(), records_view(rem@)),
            decreases rem@.len(),
        {
            let ghost pv = self.pending_view();
            let ghost remv = records_view(rem@);
            let ghost passed0 = passed@;
            let r = rem.remove(0);
            proof {
                assert(records_view(rem@) =~= remv.drop_first());
                assert(remv[0] == r@);
            }
            let outcome = self.feed(r);
            match outcome {
                GateOutcome::Forward(p) => {
                    passed.push(p);
                },
                _ => (),
            }
            proof {
                assert(passed@.map_values(|p: Vec<u8>| p@) =~= if passed@.len() == passed0.len() {
                    passed0.map_values(|p: Vec<u8>| p@)
                } else {
                    passed0.map_values(|p: Vec<u8>| p@).push(passed@.last()@)
                });
                assert(passed@.map_values(|p: Vec<u8>| p@) + forwarded_from(
                    self.pending_view(),
                    records_view(rem@),
                ) =~= passed0.map_values(|p: Vec<u8>| p@) + forwarded_from(pv, remv));
            }
        }
        proof {
            assert(records_view(rem@) =~= Seq::<Seq<u8>>::empty());
            assert(passed@.map_values(|p: Vec<u8>| p@) =~= passed@.map_values(|p: Vec<u8>| p@)
                + forwarded_from(self.pending_view(), records_view(rem@)));
        }
        passed
    }
}

} // verus!
