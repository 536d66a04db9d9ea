//! The metric record kind and its adapter: primary-key grammar, indexed
//! dimensions, and payload codec.
//!
//! A metric's primary key is `name|TTTTTTTTTTTTTTTTTTTT|<labels-key-form>`,
//! the timestamp zero-padded to 20 decimal digits so that lexicographic
//! order equals numeric order. Each committed metric carries one name
//! posting, one timestamp posting, and one label posting per label; the
//! primary key is the verbatim suffix of every posting key.

use vstd::prelude::*;
use vstd::utf8::*;

use crate::clock::now_nanos;
use crate::codec::{
    le8, lemma_le8_val, lemma_take_str, push_str_block, push_u64, read_str_block, read_u64_at,
    str_block, take_str,
};
use crate::keys::{pad20, pad20_chars, push_ascii, push_str_bytes};
use crate::models::{
    labels_form_chars, valid_labels, valid_name, check_labels, check_name_text, Context,
    ContextValue, LabelModel,
};
use crate::prelude::StorefulError;
use crate::text::lemma_encode_utf8_concat;

verus! {

/// The mathematical value of a metric.
pub struct MetricModel {
    pub name: Seq<char>,
    pub timestamp: i64,
    pub value_bits: u64,
    pub labels: Seq<LabelModel>,
}

/// A metric sample. The measured value is carried as the raw bits of a
/// 64-bit float; the engine never interprets it.
#[derive(Debug, Clone)]
pub struct Metric {
    pub name: String,
    pub timestamp: i64,
    pub value_bits: u64,
    pub labels: Context,
}

impl View for Metric {
    type V = MetricModel;

    open spec fn view(&self) -> MetricModel {
        MetricModel {
            name: self.name@,
            timestamp: self.timestamp,
            value_bits: self.value_bits,
            labels: self.labels@,
        }
    }
}

/// A metric whose timestamp may be absent; ingestion fills it with the
/// current wall clock.
#[derive(Debug, Clone)]
pub struct IncomingMetric {
    pub name: String,
    pub timestamp: Option<i64>,
    pub value_bits: u64,
    pub labels: Context,
}

impl Metric {
    /// Fill an absent timestamp with the current wall clock (never below
    /// zero); all other fields carry over unchanged.
    pub fn from_incoming(incoming: IncomingMetric) -> (r: Metric)
        ensures
            r@.name == incoming.name@,
            r@.value_bits == incoming.value_bits,
            r@.labels == incoming.labels@,
            incoming.timestamp matches Some(t) ==> r@.timestamp == t,
            incoming.timestamp is None ==> r@.timestamp >= 0,
    {
        let timestamp: i64 = match incoming.timestamp {
            Some(t) => t,
            None => {
                let now = now_nanos();
                if now < 0 {
                    0
                } else {
                    now
                }
            },
        };
        Metric {
            name: incoming.name,
            timestamp,
            value_bits: incoming.value_bits,
            labels: incoming.labels,
        }
    }
}

/// A metric may be ingested when its timestamp is non-negative, its name is
/// free of the field separator, and its labels are free of the reserved
/// characters.
pub open spec fn valid_metric(m: MetricModel) -> bool {
    &&& m.timestamp >= 0
    &&& valid_name(m.name)
    &&& valid_labels(m.labels)
}

/// Whether every variable-length field of a metric fits its length prefix.
/// Every metric held in memory is bounded; the bound matters only to state
/// the codec's laws for arbitrary mathematical records.
pub open spec fn bounded_metric(m: MetricModel) -> bool {
    &&& encode_utf8(m.name).len() <= u64::MAX
    &&& m.labels.len() <= u64::MAX
    &&& forall|i: int|
        0 <= i < m.labels.len() ==> encode_utf8(#[trigger] m.labels[i].key).len() <= u64::MAX
            && encode_utf8(m.labels[i].value).len() <= u64::MAX
}

/// Whether an ingested metric is valid.
pub fn check_metric(m: &Metric) -> (r: bool)
    ensures
        r == valid_metric(m@),
{
    if m.timestamp < 0 {
        return false;
    }
    let name_ok = check_name_text(m.name.as_str());
    let labels_ok = check_labels(&m.labels);
    name_ok && labels_ok
}

// ---------------------------------------------------------------------
// key grammar

/// The character form of a metric's primary key.
pub open spec fn metric_primary_chars(m: MetricModel) -> Seq<char> {
    m.name + seq!['|'] + pad20_chars(m.timestamp as int) + seq!['|'] + labels_form_chars(m.labels)
}

/// A metric's primary key.
pub open spec fn metric_primary(m: MetricModel) -> Seq<u8> {
    encode_utf8(metric_primary_chars(m))
}

/// The literal head of a name posting key.
pub open spec fn name_tag() -> Seq<char> {
    seq!['n', 'a', 'm', 'e', '|']
}

/// The literal head of a timestamp posting key.
pub open spec fn ts_tag() -> Seq<char> {
    seq!['t', 'i', 'm', 'e', 's', 't', 'a', 'm', 'p', '|']
}

/// The literal head of a label posting key.
pub open spec fn label_tag() -> Seq<char> {
    seq!['l', 'a', 'b', 'e', 'l', '|']
}

/// The prefix probed for a name predicate: `name|<n>|`.
pub open spec fn name_prefix_chars(n: Seq<char>) -> Seq<char> {
    name_tag() + n + seq!['|']
}

/// The prefix probed for a label predicate: `label|<k>:<v>|`.
pub open spec fn label_prefix_chars(l: LabelModel) -> Seq<char> {
    label_tag() + l.key + seq![':'] + l.value + seq!['|']
}

/// The prefix of a timestamp posting key: `timestamp|TTTTTTTTTTTTTTTTTTTT|`.
pub open spec fn ts_prefix_chars(t: int) -> Seq<char> {
    ts_tag() + pad20_chars(t) + seq!['|']
}

/// A metric's name posting key: `name|<name>|<primary>`.
pub open spec fn metric_name_post(m: MetricModel) -> Seq<u8> {
    encode_utf8(name_prefix_chars(m.name)) + metric_primary(m)
}

/// A metric's timestamp posting key: `timestamp|TTTTTTTTTTTTTTTTTTTT|<primary>`.
pub open spec fn metric_ts_post(m: MetricModel) -> Seq<u8> {
    encode_utf8(ts_prefix_chars(m.timestamp as int)) + metric_primary(m)
}

/// A metric's posting key for one label: `label|<k>:<v>|<primary>`.
pub open spec fn metric_label_post(l: LabelModel, m: MetricModel) -> Seq<u8> {
    encode_utf8(label_prefix_chars(l)) + metric_primary(m)
}

/// Build a metric's primary key.
pub fn metric_primary_key(m: &Metric) -> (r: Vec<u8>)
    requires
        m@.timestamp >= 0,
    ensures
        r@ == metric_primary(m@),
{
    let mut out: Vec<u8> = Vec::new();
    push_str_bytes(&mut out, m.name.as_str());
    push_ascii(&mut out, '|');
    let mut pad = pad20(m.timestamp);
    out.append(&mut pad);
    push_ascii(&mut out, '|');
    let mut lb = m.labels.to_key_bytes();
    out.append(&mut lb);
    proof {
        let a = m@.name;
        let b = seq!['|'];
        let c = pad20_chars(m@.timestamp as int);
        let d = seq!['|'];
        let e = labels_form_chars(m@.labels);
        lemma_encode_utf8_concat(a, b);
        lemma_encode_utf8_concat(a + b, c);
        lemma_encode_utf8_concat(a + b + c, d);
        lemma_encode_utf8_concat(a + b + c + d, e);
        assert(metric_primary_chars(m@) =~= a + b + c + d + e);
        assert(out@ =~= encode_utf8(metric_primary_chars(m@)));
    }
    out
}

/// Build the probe prefix for a name predicate.
pub fn name_probe(name: &str) -> (r: Vec<u8>)
    ensures
        r@ == encode_utf8(name_prefix_chars(name@)),
{
    let mut out: Vec<u8> = Vec::new();
    push_str_bytes(&mut out, "name|");
    push_str_bytes(&mut out, name);
    push_ascii(&mut out, '|');
    proof {
        reveal_strlit("name|");
        assert("name|"@ =~= name_tag());
        lemma_encode_utf8_concat(name_tag(), name@);
        lemma_encode_utf8_concat(name_tag() + name@, seq!['|']);
        assert(name_prefix_chars(name@) =~= name_tag() + name@ + seq!['|']);
        assert(out@ =~= encode_utf8(name_prefix_chars(name@)));
    }
    out
}

/// Build the probe prefix for a label predicate.
pub fn label_probe(cv: &ContextValue) -> (r: Vec<u8>)
    ensures
        r@ == encode_utf8(label_prefix_chars(cv@)),
{
    let mut out: Vec<u8> = Vec::new();
    push_str_bytes(&mut out, "label|");
    push_str_bytes(&mut out, cv.key.as_str());
    push_ascii(&mut out, ':');
    push_str_bytes(&mut out, cv.value.as_str());
    push_ascii(&mut out, '|');
    proof {
        reveal_strlit("label|");
        assert("label|"@ =~= label_tag());
        let a = label_tag();
        let b = cv@.key;
        let c = seq![':'];
        let d = cv@.value;
        let e = seq!['|'];
        lemma_encode_utf8_concat(a, b);
        lemma_encode_utf8_concat(a + b, c);
        lemma_encode_utf8_concat(a + b + c, d);
        lemma_encode_utf8_concat(a + b + c + d, e);
        assert(label_prefix_chars(cv@) =~= a + b + c + d + e);
        assert(out@ =~= encode_utf8(label_prefix_chars(cv@)));
    }
    out
}

/// Build the prefix of a timestamp posting key.
pub fn ts_probe(t: i64) -> (r: Vec<u8>)
    requires
        t >= 0,
    ensures
        r@ == encode_utf8(ts_prefix_chars(t as int)),
{
    let mut out: Vec<u8> = Vec::new();
    push_str_bytes(&mut out, "timestamp|");
    let mut pad = pad20(t);
    out.append(&mut pad);
    push_ascii(&mut out, '|');
    proof {
        reveal_strlit("timestamp|");
        assert("timestamp|"@ =~= ts_tag());
        lemma_encode_utf8_concat(ts_tag(), pad20_chars(t as int));
        lemma_encode_utf8_concat(ts_tag() + pad20_chars(t as int), seq!['|']);
        assert(ts_prefix_chars(t as int) =~= ts_tag() + pad20_chars(t as int) + seq!['|']);
        assert(out@ =~= encode_utf8(ts_prefix_chars(t as int)));
    }
    out
}

// ---------------------------------------------------------------------
// payload codec

/// The payload bytes of a label sequence: one string block per key and
/// value, in order.
pub open spec fn labels_payload(ls: Seq<LabelModel>) -> Seq<u8>
    decreases ls.len(),
{
    if ls.len() == 0 {
        Seq::empty()
    } else {
        str_block(ls[0].key) + str_block(ls[0].value) + labels_payload(ls.drop_first())
    }
}

/// Appending a label extends the payload at the right.
pub proof fn lemma_labels_payload_snoc(ls: Seq<LabelModel>, l: LabelModel)
    ensures
        labels_payload(ls.push(l)) == labels_payload(ls) + str_block(l.key) + str_block(l.value),
    decreases ls.len(),
{
    if ls.len() == 0 {
        assert(ls.push(l)[0] == l);
        assert(ls.push(l).drop_first() =~= Seq::<LabelModel>::empty());
        assert(labels_payload(Seq::<LabelModel>::empty()) =~= Seq::<u8>::empty());
        assert(labels_payload(ls.push(l)) == str_block(l.key) + str_block(l.value)
            + labels_payload(ls.push(l).drop_first()));
        assert(labels_payload(ls) =~= Seq::<u8>::empty());
        assert(labels_payload(ls.push(l)) =~= labels_payload(ls) + str_block(l.key) + str_block(
            l.value,
        ));
    } else {
        assert(ls.push(l)[0] == ls[0]);
        assert(ls.push(l).drop_first() =~= ls.drop_first().push(l));
        lemma_labels_payload_snoc(ls.drop_first(), l);
        assert(labels_payload(ls.push(l)) =~= labels_payload(ls) + str_block(l.key) + str_block(
            l.value,
        ));
    }
}

/// The payload bytes of a metric: timestamp, value bits, name block, label
/// count, label blocks.
pub open spec fn metric_payload(m: MetricModel) -> Seq<u8> {
    le8(m.timestamp as u64) + le8(m.value_bits) + str_block(m.name) + le8(m.labels.len() as u64)
        + labels_payload(m.labels)
}

/// Read `n` label blocks starting at `pos`.
pub open spec fn take_labels(b: Seq<u8>, pos: int, n: nat) -> Option<(Seq<LabelModel>, int)>
    decreases n,
{
    if n == 0 {
        Some((Seq::empty(), pos))
    } else {
        match take_str(b, pos) {
            Option::None => None,
            Option::Some(kp) => match take_str(b, kp.1) {
                Option::None => None,
                Option::Some(vp) => match take_labels(b, vp.1, (n - 1) as nat) {
                    Option::None => None,
                    Option::Some(rp) => Some(
                        (seq![LabelModel { key: kp.0, value: vp.0 }] + rp.0, rp.1),
                    ),
                },
            },
        }
    }
}

/// Decode a metric payload. Trailing bytes, truncated fields and malformed
/// text are rejected.
pub open spec fn dec_metric(b: Seq<u8>) -> Option<MetricModel> {
    if b.len() < 16 {
        None
    } else {
        match take_str(b, 16) {
            Option::None => None,
            Option::Some(np) => if np.1 + 8 > b.len() {
                None
            } else {
                match take_labels(b, np.1 + 8, read_u64_at(b, np.1) as nat) {
                    Option::None => None,
                    Option::Some(lp) => if lp.1 == b.len() {
                        Some(
                            MetricModel {
                                name: np.0,
                                timestamp: read_u64_at(b, 0) as i64,
                                value_bits: read_u64_at(b, 8),
                                labels: lp.0,
                            },
                        )
                    } else {
                        None
                    },
                }
            },
        }
    }
}

/// Encode a metric payload.
pub fn encode_metric(m: &Metric) -> (r: Vec<u8>)
    ensures
        r@ == metric_payload(m@),
        bounded_metric(m@),
{
    let mut out: Vec<u8> = Vec::new();
    push_u64(&mut out, #[verifier::truncate] (m.timestamp as u64));
    push_u64(&mut out, m.value_bits);
    push_str_block(&mut out, m.name.as_str());
    push_u64(&mut out, m.labels.0.len() as u64);
    let ghost head = le8(m@.timestamp as u64) + le8(m@.value_bits) + str_block(m@.name) + le8(
        m@.labels.len() as u64,
    );
    proof {
        assert(m@.labels.len() == m.labels.0@.len());
        assert(out@ =~= head);
        assert(m@.labels.subrange(0, 0) =~= Seq::<LabelModel>::empty());
        assert(out@ =~= head + labels_payload(m@.labels.subrange(0, 0)));
    }
    let mut i: usize = 0;
    while i < m.labels.0.len()
        invariant
            0 <= i <= m.labels.0@.len(),
            m@.labels.len() == m.labels.0@.len(),
            head == le8(m@.timestamp as u64) + le8(m@.value_bits) + str_block(m@.name) + le8(
                m@.labels.len() as u64,
            ),
            out@ == head + labels_payload(m@.labels.subrange(0, i as int)),
            forall|j: int|
                0 <= j < i ==> encode_utf8(#[trigger] m@.labels[j].key).len() <= u64::MAX
                    && encode_utf8(m@.labels[j].value).len() <= u64::MAX,
        decreases m.labels.0@.len() - i,
    {
        let ghost pre = m@.labels.subrange(0, i as int);
        let ghost post = m@.labels.subrange(0, i as int + 1);
        push_str_block(&mut out, m.labels.0[i].key.as_str());
        push_str_block(&mut out, m.labels.0[i].value.as_str());
        proof {
            assert(post =~= pre.push(m@.labels[i as int]));
            lemma_labels_payload_snoc(pre, m@.labels[i as int]);
            assert(out@ =~= head + labels_payload(post));
        }
        i = i + 1;
    }
    proof {
        assert(m@.labels.subrange(0, m@.labels.len() as int) =~= m@.labels);
        assert(out@ =~= metric_payload(m@));
    }
    out
}

/// Decode a metric payload.
pub fn decode_metric(b: &Vec<u8>) -> (r: Result<Metric, StorefulError>)
    ensures
        match r {
            Ok(met) => dec_metric(b@) == Some(met@),
            Err(e) => dec_metric(b@) is None && e == StorefulError::Codec,
        },
{
    if b.len() < 16 {
        return Err(StorefulError::Codec);
    }
    let ts_bits = crate::codec::get_u64(b.as_slice(), 0);
    let value_bits = crate::codec::get_u64(b.as_slice(), 8);
    let (name, p1) = match read_str_block(b.as_slice(), 16) {
        Ok(sp) => sp,
        Err(e) => {
            return Err(e);
        },
    };
    if b.len() - p1 < 8 {
        return Err(StorefulError::Codec);
    }
    let count = crate::codec::get_u64(b.as_slice(), p1);
    let mut labels = Context(Vec::new());
    let mut pos: usize = p1 + 8;
    let mut i: u64 = 0;
    let ghost p0: int = p1 as int + 8;
    proof {
        assert(labels@ =~= Seq::<LabelModel>::empty());
        assert(take_labels(b@, p0, (count - i) as nat) == take_labels(b@, pos as int, count as nat));
    }
    while i < count
        invariant
            0 <= i <= count,
            pos <= b@.len(),
            labels@.len() == i,
            b@.len() >= 16,
            take_str(b@, 16) == Some((name@, p1 as int)),
            p1 + 8 <= b@.len(),
            read_u64_at(b@, p1 as int) == count,
            p0 == p1 as int + 8,
            take_labels(b@, p0, count as nat) == (match take_labels(
                b@,
                pos as int,
                (count - i) as nat,
            ) {
                Option::None => None,
                Option::Some(rp) => Some((labels@ + rp.0, rp.1)),
            }),
        decreases count - i,
    {
        let (k, p_k) = match read_str_block(b.as_slice(), pos) {
            Ok(sp) => sp,
            Err(e) => {
                proof {
                    assert(take_labels(b@, pos as int, (count - i) as nat) is None);
                    assert(take_labels(b@, p0, count as nat) is None);
                    assert(dec_metric(b@) is None);
                }
                return Err(StorefulError::Codec);
            },
        };
        let (v, p_v) = match read_str_block(b.as_slice(), p_k) {
            Ok(sp) => sp,
            Err(e) => {
                proof {
                    assert(take_labels(b@, pos as int, (count - i) as nat) is None);
                    assert(take_labels(b@, p0, count as nat) is None);
                    assert(dec_metric(b@) is None);
                }
                return Err(StorefulError::Codec);
            },
        };
        let ghost l = LabelModel { key: k@, value: v@ };
        let ghost labels_pre = labels@;
        labels.0.push(ContextValue { key: k, value: v });
        proof {
            assert(labels@ =~= labels_pre.push(l));
            let rem = (count - i) as nat;
            assert(take_labels(b@, pos as int, rem) == (match take_labels(
                b@,
                p_v as int,
                (rem - 1) as nat,
            ) {
                Option::None => None,
                Option::Some(rp) => Some((seq![l] + rp.0, rp.1)),
            }));
            assert forall|rp: (Seq<LabelModel>, int)|
                take_labels(b@, p_v as int, (count - (i + 1)) as nat) == Some::<
                    (Seq<LabelModel>, int),
                >(rp) implies labels_pre + (seq![l] + rp.0) =~= labels@ + rp.0 by {}
        }
        pos = p_v;
        i = i + 1;
    }
    proof {
        assert(take_labels(b@, pos as int, 0nat) == Some((Seq::<LabelModel>::empty(), pos as int)));
        assert(labels@ + Seq::<LabelModel>::empty() =~= labels@);
        assert(take_labels(b@, p0, count as nat) == Some((labels@, pos as int)));
    }
    if pos != b.len() {
        return Err(StorefulError::Codec);
    }
    let met = Metric {
        name,
        timestamp: #[verifier::truncate] (ts_bits as i64),
        value_bits,
        labels,
    };
    proof {
        assert(dec_metric(b@) == Some(met@));
    }
    Ok(met)
}

/// Reading `n` label blocks placed at `pos` inside a larger buffer yields
/// the labels they encode.
pub proof fn lemma_take_labels(b: Seq<u8>, pos: int, ls: Seq<LabelModel>)
    requires
        0 <= pos,
        pos + labels_payload(ls).len() <= b.len(),
        b.subrange(pos, pos + labels_payload(ls).len() as int) == labels_payload(ls),
        forall|i: int|
            0 <= i < ls.len() ==> encode_utf8(#[trigger] ls[i].key).len() <= u64::MAX && encode_utf8(
                ls[i].value,
            ).len() <= u64::MAX,
    ensures
        take_labels(b, pos, ls.len() as nat) == Some((ls, pos + labels_payload(ls).len())),
    decreases ls.len(),
{
    if ls.len() == 0 {
        assert(take_labels(b, pos, 0nat) == Some((Seq::<LabelModel>::empty(), pos)));
        assert(ls =~= Seq::<LabelModel>::empty());
    } else {
        let l = ls[0];
        let kb = str_block(l.key);
        let vb = str_block(l.value);
        let rest = labels_payload(ls.drop_first());
        let lp = labels_payload(ls);
        assert(lp == kb + vb + rest);
        let whole = b.subrange(pos, pos + lp.len() as int);
        // the key block
        assert(b.subrange(pos, pos + kb.len() as int) =~= whole.subrange(0, kb.len() as int));
        assert(whole.subrange(0, kb.len() as int) =~= kb);
        lemma_take_str(b, pos, l.key);
        let p1 = pos + kb.len() as int;
        // the value block
        assert(b.subrange(p1, p1 + vb.len() as int) =~= whole.subrange(
            kb.len() as int,
            kb.len() as int + vb.len() as int,
        ));
        assert(whole.subrange(kb.len() as int, kb.len() as int + vb.len() as int) =~= vb);
        lemma_take_str(b, p1, l.value);
        let p2 = p1 + vb.len() as int;
        // the remaining labels
        assert(b.subrange(p2, p2 + rest.len() as int) =~= whole.subrange(
            kb.len() as int + vb.len() as int,
            lp.len() as int,
        ));
        assert(whole.subrange(kb.len() as int + vb.len() as int, lp.len() as int) =~= rest);
        assert(forall|i: int|
            0 <= i < ls.drop_first().len() ==> encode_utf8(
                #[trigger] ls.drop_first()[i].key,
            ).len() <= u64::MAX && encode_utf8(ls.drop_first()[i].value).len() <= u64::MAX);
        lemma_take_labels(b, p2, ls.drop_first());
        assert(take_labels(b, pos, ls.len() as nat) == Some(
            (seq![LabelModel { key: l.key, value: l.value }] + ls.drop_first(), p2
                + rest.len() as int),
        ));
        assert(seq![LabelModel { key: l.key, value: l.value }] + ls.drop_first() =~= ls);
        assert(p2 + rest.len() as int == pos + lp.len() as int);
    }
}

/// The codec round-trips: decoding an encoded metric yields the metric.
pub proof fn lemma_metric_codec_round_trip(m: MetricModel)
    requires
        bounded_metric(m),
    ensures
        dec_metric(metric_payload(m)) == Some(m),
{
    let b = metric_payload(m);
    let nb = str_block(m.name);
    let lp = labels_payload(m.labels);
    assert(b.len() == 16 + nb.len() + 8 + lp.len());
    // the two fixed fields
    assert(b.subrange(0, 8) =~= le8(m.timestamp as u64));
    lemma_le8_val(m.timestamp as u64);
    assert(read_u64_at(b, 0) == m.timestamp as u64);
    let t = m.timestamp;
    assert((t as u64) as i64 == t) by (bit_vector);
    assert(b.subrange(8, 16) =~= le8(m.value_bits));
    lemma_le8_val(m.value_bits);
    assert(read_u64_at(b, 8) == m.value_bits);
    // the name block
    assert(nb.len() == 8 + encode_utf8(m.name).len());
    assert(b.subrange(16, 16 + nb.len() as int) =~= nb);
    lemma_take_str(b, 16, m.name);
    let q = 16 + nb.len() as int;
    assert(take_str(b, 16) == Some((m.name, q)));
    // the label count
    assert(b.subrange(q, q + 8) =~= le8(m.labels.len() as u64));
    lemma_le8_val(m.labels.len() as u64);
    assert(read_u64_at(b, q) == m.labels.len() as u64);
    assert((m.labels.len() as u64) as nat == m.labels.len());
    // the label blocks
    assert(b.subrange(q + 8, q + 8 + lp.len() as int) =~= lp);
    lemma_take_labels(b, q + 8, m.labels);
    assert(take_labels(b, q + 8, m.labels.len() as nat) == Some((m.labels, q + 8 + lp.len())));
    assert(q + 8 + lp.len() == b.len());
    assert(dec_metric(b) == Some(m));
}

// ---------------------------------------------------------------------
// grammar laws

/// The character form of a name posting key.
pub open spec fn name_post_chars(m: MetricModel) -> Seq<char> {
    name_prefix_chars(m.name) + metric_primary_chars(m)
}

/// The character form of a timestamp posting key.
pub open spec fn ts_post_chars(m: MetricModel) -> Seq<char> {
    ts_prefix_chars(m.timestamp as int) + metric_primary_chars(m)
}

/// The character form of a label posting key.
pub open spec fn label_post_chars(l: LabelModel, m: MetricModel) -> Seq<char> {
    label_prefix_chars(l) + metric_primary_chars(m)
}

/// Posting keys are the encodings of their character forms.
pub proof fn lemma_post_chars(m: MetricModel, l: LabelModel)
    ensures
        metric_name_post(m) == encode_utf8(name_post_chars(m)),
        metric_ts_post(m) == encode_utf8(ts_post_chars(m)),
        metric_label_post(l, m) == encode_utf8(label_post_chars(l, m)),
{
    lemma_encode_utf8_concat(name_prefix_chars(m.name), metric_primary_chars(m));
    lemma_encode_utf8_concat(ts_prefix_chars(m.timestamp as int), metric_primary_chars(m));
    lemma_encode_utf8_concat(label_prefix_chars(l), metric_primary_chars(m));
}

/// A name probe prefix selects exactly the postings of records with that
/// name.
pub proof fn lemma_name_probe(n: Seq<char>, m: MetricModel)
    requires
        valid_name(n),
        valid_metric(m),
    ensures
        encode_utf8(name_prefix_chars(n)).is_prefix_of(metric_name_post(m)) <==> m.name == n,
{
    lemma_post_chars(m, LabelModel { key: Seq::empty(), value: Seq::empty() });
    crate::text::lemma_encode_utf8_prefix(name_prefix_chars(n), name_post_chars(m));
    if name_prefix_chars(n).is_prefix_of(name_post_chars(m)) {
        assert(name_prefix_chars(n) =~= name_tag() + (n + seq!['|'] + Seq::<char>::empty()));
        assert(name_post_chars(m) =~= name_tag() + (m.name + seq!['|'] + metric_primary_chars(m)));
        crate::models::lemma_strip_head(
            name_tag(),
            n + seq!['|'] + Seq::<char>::empty(),
            m.name + seq!['|'] + metric_primary_chars(m),
        );
        assert(!n.contains('|')) by {
            if n.contains('|') {
                let i = choose|i: int| 0 <= i < n.len() && n[i] == '|';
            }
        }
        assert(!m.name.contains('|')) by {
            if m.name.contains('|') {
                let i = choose|i: int| 0 <= i < m.name.len() && m.name[i] == '|';
            }
        }
        crate::models::lemma_prefix_after_sep(
            n,
            Seq::empty(),
            m.name,
            metric_primary_chars(m),
            '|',
        );
    }
    if m.name == n {
        assert(name_post_chars(m) =~= name_prefix_chars(n) + metric_primary_chars(m));
        assert(name_prefix_chars(n).is_prefix_of(name_post_chars(m))) by {
            assert(name_prefix_chars(n) =~= name_post_chars(m).subrange(
                0,
                name_prefix_chars(n).len() as int,
            ));
        }
    }
}

/// A label probe prefix selects exactly the postings written for that
/// label.
pub proof fn lemma_label_probe(l: LabelModel, l2: LabelModel, m: MetricModel)
    requires
        crate::models::valid_label(l),
        crate::models::valid_label(l2),
        valid_metric(m),
    ensures
        encode_utf8(label_prefix_chars(l)).is_prefix_of(metric_label_post(l2, m)) <==> l == l2,
{
    lemma_post_chars(m, l2);
    crate::text::lemma_encode_utf8_prefix(label_prefix_chars(l), label_post_chars(l2, m));
    if label_prefix_chars(l).is_prefix_of(label_post_chars(l2, m)) {
        assert(label_prefix_chars(l) =~= label_tag() + (l.key + seq![':'] + (l.value + seq!['|']
            + Seq::<char>::empty())));
        assert(label_post_chars(l2, m) =~= label_tag() + (l2.key + seq![':'] + (l2.value
            + seq!['|'] + metric_primary_chars(m))));
        crate::models::lemma_strip_head(
            label_tag(),
            l.key + seq![':'] + (l.value + seq!['|'] + Seq::<char>::empty()),
            l2.key + seq![':'] + (l2.value + seq!['|'] + metric_primary_chars(m)),
        );
        assert(!l.key.contains(':') && !l2.key.contains(':')) by {
            if l.key.contains(':') {
                let i = choose|i: int| 0 <= i < l.key.len() && l.key[i] == ':';
                assert(crate::models::reserved_label_char(l.key[i]));
            }
            if l2.key.contains(':') {
                let i = choose|i: int| 0 <= i < l2.key.len() && l2.key[i] == ':';
                assert(crate::models::reserved_label_char(l2.key[i]));
            }
        }
        crate::models::lemma_prefix_after_sep(
            l.key,
            l.value + seq!['|'] + Seq::<char>::empty(),
            l2.key,
            l2.value + seq!['|'] + metric_primary_chars(m),
            ':',
        );
        assert((l.value + seq!['|'] + Seq::<char>::empty()).is_prefix_of(
            l2.value + seq!['|'] + metric_primary_chars(m),
        ));
        assert(!l.value.contains('|') && !l2.value.contains('|')) by {
            if l.value.contains('|') {
                let i = choose|i: int| 0 <= i < l.value.len() && l.value[i] == '|';
                assert(crate::models::reserved_label_char(l.value[i]));
            }
            if l2.value.contains('|') {
                let i = choose|i: int| 0 <= i < l2.value.len() && l2.value[i] == '|';
                assert(crate::models::reserved_label_char(l2.value[i]));
            }
        }
        crate::models::lemma_prefix_after_sep(
            l.value,
            Seq::empty(),
            l2.value,
            metric_primary_chars(m),
            '|',
        );
        assert(l == l2);
    }
    if l == l2 {
        assert(label_post_chars(l2, m) =~= label_prefix_chars(l) + metric_primary_chars(m));
        assert(label_prefix_chars(l).is_prefix_of(label_post_chars(l2, m))) by {
            assert(label_prefix_chars(l) =~= label_post_chars(l2, m).subrange(
                0,
                label_prefix_chars(l).len() as int,
            ));
        }
    }
}

/// The timestamp field of a valid metric's timestamp posting parses back
/// to the metric's timestamp.
pub proof fn lemma_ts_post_parses(m: MetricModel)
    requires
        valid_metric(m),
    ensures
        crate::db::ts_key_parses(metric_ts_post(m)),
        crate::db::ts_of_key(metric_ts_post(m)) == m.timestamp,
        encode_utf8(ts_prefix_chars(m.timestamp as int)).len() == 31,
{
    let t = m.timestamp as int;
    let prefix = ts_prefix_chars(t);
    let pc = pad20_chars(t);
    proof_pow20();
    crate::keys::lemma_digits_val_padded(t, 20);
    assert(is_ascii_chars(prefix)) by {
        assert forall|i: int| 0 <= i < prefix.len() implies '\0' <= #[trigger] prefix[i]
            <= '\u{7f}' by {
            if 10 <= i < 30 {
                assert(prefix[i] == pc[i - 10]);
                assert(crate::keys::is_digit(pc[i - 10]));
            }
        }
    }
    is_ascii_chars_encode_utf8(prefix);
    let eb = encode_utf8(prefix);
    assert(eb.len() == 31);
    let k = metric_ts_post(m);
    assert(k == eb + metric_primary(m));
    assert(k.len() >= 30);
    assert forall|i: int| 10 <= i < 30 implies crate::keys::is_digit_byte(#[trigger] k[i]) by {
        assert(k[i] == eb[i]);
        assert(eb[i] == prefix[i] as u8);
        assert(prefix[i] == pc[i - 10]);
        digit_byte_of_char(pc[i - 10]);
    }
    let sub = k.subrange(10, 30);
    assert(sub.len() == pc.len());
    assert forall|i: int| 0 <= i < pc.len() implies crate::keys::is_digit(#[trigger] pc[i])
        && sub[i] == pc[i] as u8 by {
        assert(sub[i] == k[i + 10]);
        assert(k[i + 10] == eb[i + 10]);
        assert(eb[i + 10] == prefix[i + 10] as u8);
        assert(prefix[i + 10] == pc[i]);
    }
    crate::keys::lemma_digits_val_bytes_chars(pc, sub);
    assert(crate::db::ts_of_key(k) == crate::keys::digits_val(pc));
}

/// A digit character's byte is a digit byte.
proof fn digit_byte_of_char(c: char)
    requires
        crate::keys::is_digit(c),
    ensures
        crate::keys::is_digit_byte(c as u8),
{
    let u = c as u32;
    vstd::utf8::char_u32_cast(c, u);
    assert(c as u8 == u as u8);
    assert(48 <= (u as u8) <= 57) by (bit_vector)
        requires
            48 <= u <= 57,
    ;
}

/// Timestamps fit under twenty decimal digits.
proof fn proof_pow20()
    ensures
        crate::keys::pow10(20) == 100_000_000_000_000_000_000,
{
    reveal_with_fuel(crate::keys::pow10, 21);
}

/// Identical primary keys come only from records that agree on every
/// indexed dimension: the name, the timestamp and the labels (the measured
/// value is not an indexed dimension).
pub proof fn lemma_primary_identifies_dimensions(m1: MetricModel, m2: MetricModel)
    requires
        valid_metric(m1),
        valid_metric(m2),
        metric_primary(m1) == metric_primary(m2),
    ensures
        m1.name == m2.name,
        m1.timestamp == m2.timestamp,
        m1.labels == m2.labels,
{
    crate::text::lemma_encode_utf8_injective(metric_primary_chars(m1), metric_primary_chars(m2));
    let p1 = metric_primary_chars(m1);
    let p2 = metric_primary_chars(m2);
    let r1 = pad20_chars(m1.timestamp as int) + seq!['|'] + labels_form_chars(m1.labels);
    let r2 = pad20_chars(m2.timestamp as int) + seq!['|'] + labels_form_chars(m2.labels);
    assert(p1 =~= m1.name + seq!['|'] + r1);
    assert(p2 =~= m2.name + seq!['|'] + r2);
    assert(!m1.name.contains('|') && !m2.name.contains('|')) by {
        if m1.name.contains('|') {
            let i = choose|i: int| 0 <= i < m1.name.len() && m1.name[i] == '|';
        }
        if m2.name.contains('|') {
            let i = choose|i: int| 0 <= i < m2.name.len() && m2.name[i] == '|';
        }
    }
    assert(p1.is_prefix_of(p2)) by {
        assert(p1 =~= p2.subrange(0, p1.len() as int));
    }
    crate::models::lemma_prefix_after_sep(m1.name, r1, m2.name, r2, '|');
    assert(r1 =~= r2) by {
        assert(r1.is_prefix_of(r2));
        assert(r1.len() == r2.len());
    }
    // the padded timestamps occupy the first twenty characters
    let c1 = pad20_chars(m1.timestamp as int);
    let c2 = pad20_chars(m2.timestamp as int);
    assert(c1 =~= c2) by {
        assert forall|i: int| 0 <= i < 20 implies c1[i] == c2[i] by {
            assert(r1[i] == c1[i]);
            assert(r2[i] == c2[i]);
        }
    }
    proof_pow20();
    crate::keys::lemma_digits_val_padded(m1.timestamp as int, 20);
    crate::keys::lemma_digits_val_padded(m2.timestamp as int, 20);
    assert(m1.timestamp == m2.timestamp);
    // and the label forms fill the rest
    let f1 = labels_form_chars(m1.labels);
    let f2 = labels_form_chars(m2.labels);
    assert(f1 =~= f2) by {
        assert forall|i: int| 0 <= i < f1.len() implies f1[i] == f2[i] by {
            assert(r1[21 + i] == f1[i]);
            assert(r2[21 + i] == f2[i]);
        }
    }
    crate::models::lemma_labels_form_injective(m1.labels, m2.labels);
}


/// Equal name-posting keys carry equal primaries.
pub proof fn lemma_name_post_determines(m1: MetricModel, m2: MetricModel)
    requires
        valid_metric(m1),
        valid_metric(m2),
        metric_name_post(m1) == metric_name_post(m2),
    ensures
        metric_primary(m1) == metric_primary(m2),
{
    assert(encode_utf8(name_prefix_chars(m1.name)).is_prefix_of(metric_name_post(m2))) by {
        assert(encode_utf8(name_prefix_chars(m1.name)) =~= metric_name_post(m1).subrange(
            0,
            encode_utf8(name_prefix_chars(m1.name)).len() as int,
        ));
    }
    lemma_name_probe(m1.name, m2);
    assert(m2.name == m1.name);
    let l = encode_utf8(name_prefix_chars(m1.name)).len() as int;
    assert(metric_primary(m1) =~= metric_name_post(m1).subrange(
        l,
        metric_name_post(m1).len() as int,
    ));
    assert(metric_primary(m2) =~= metric_name_post(m2).subrange(
        l,
        metric_name_post(m2).len() as int,
    ));
}

/// Equal timestamp-posting keys carry equal primaries.
pub proof fn lemma_ts_post_determines(m1: MetricModel, m2: MetricModel)
    requires
        valid_metric(m1),
        valid_metric(m2),
        metric_ts_post(m1) == metric_ts_post(m2),
    ensures
        metric_primary(m1) == metric_primary(m2),
{
    lemma_ts_post_parses(m1);
    lemma_ts_post_parses(m2);
    assert(metric_primary(m1) =~= metric_ts_post(m1).subrange(
        31,
        metric_ts_post(m1).len() as int,
    ));
    assert(metric_primary(m2) =~= metric_ts_post(m2).subrange(
        31,
        metric_ts_post(m2).len() as int,
    ));
}

/// Equal label-posting keys come from the same label and carry equal
/// primaries.
pub proof fn lemma_label_post_determines(
    l1: LabelModel,
    m1: MetricModel,
    l2: LabelModel,
    m2: MetricModel,
)
    requires
        crate::models::valid_label(l1),
        crate::models::valid_label(l2),
        valid_metric(m1),
        valid_metric(m2),
        metric_label_post(l1, m1) == metric_label_post(l2, m2),
    ensures
        l1 == l2,
        metric_primary(m1) == metric_primary(m2),
{
    assert(encode_utf8(label_prefix_chars(l1)).is_prefix_of(metric_label_post(l2, m2))) by {
        assert(encode_utf8(label_prefix_chars(l1)) =~= metric_label_post(l1, m1).subrange(
            0,
            encode_utf8(label_prefix_chars(l1)).len() as int,
        ));
    }
    lemma_label_probe(l1, l2, m2);
    assert(l1 == l2);
    let l = encode_utf8(label_prefix_chars(l1)).len() as int;
    assert(metric_primary(m1) =~= metric_label_post(l1, m1).subrange(
        l,
        metric_label_post(l1, m1).len() as int,
    ));
    assert(metric_primary(m2) =~= metric_label_post(l2, m2).subrange(
        l,
        metric_label_post(l2, m2).len() as int,
    ));
}

} // verus!
