//! Labels carried by every record, and their canonical key-form.
//!
//! A label is a `(key, value)` string pair; a record carries an ordered
//! sequence of labels. The canonical key-form is `k1="v1",k2="v2",…` in
//! append order. So that no label can impersonate another record's key
//! material, label keys and values must not contain the reserved characters
//! `|`, `:`, `"`, `=` or `,`; ingestion and querying reject them.

use vstd::prelude::*;
use vstd::utf8::*;

use crate::text::{
    lemma_ascii_byte_occurs, lemma_encode_utf8_concat, lemma_encode_utf8_injective,
    string_from_utf8_bytes,
};
use crate::keys::{push_ascii, push_str_bytes};

verus! {

/// The mathematical value of one label.
pub struct LabelModel {
    pub key: Seq<char>,
    pub value: Seq<char>,
}

/// A request body holding one value or several.
#[derive(Debug, Clone)]
pub struct IncomingBody<T> {
    pub value: Option<T>,
    pub values: Option<Vec<T>>,
}

/// One label: a key/value string pair.
#[derive(Debug, Clone)]
pub struct ContextValue {
    pub key: String,
    pub value: String,
}

impl View for ContextValue {
    type V = LabelModel;

    open spec fn view(&self) -> LabelModel {
        LabelModel { key: self.key@, value: self.value@ }
    }
}

/// An ordered sequence of labels.
#[derive(Debug, Clone)]
pub struct Context(pub Vec<ContextValue>);

impl View for Context {
    type V = Seq<LabelModel>;

    open spec fn view(&self) -> Seq<LabelModel> {
        Seq::new(self.0@.len(), |i: int| self.0@[i]@)
    }
}

/// Characters that may not occur in label keys or values.
pub open spec fn reserved_label_char(c: char) -> bool {
    c == '|' || c == ':' || c == '"' || c == '=' || c == ','
}

/// Bytes of the reserved characters (all ASCII).
pub open spec fn reserved_label_byte(b: u8) -> bool {
    b == 124 || b == 58 || b == 34 || b == 61 || b == 44
}

pub open spec fn valid_label_text(s: Seq<char>) -> bool {
    forall|i: int| 0 <= i < s.len() ==> !reserved_label_char(#[trigger] s[i])
}

pub open spec fn valid_label(l: LabelModel) -> bool {
    valid_label_text(l.key) && valid_label_text(l.value)
}

pub open spec fn valid_labels(ls: Seq<LabelModel>) -> bool {
    forall|i: int| 0 <= i < ls.len() ==> valid_label(#[trigger] ls[i])
}

/// A record name may not contain the field separator `|`.
pub open spec fn valid_name(s: Seq<char>) -> bool {
    forall|i: int| 0 <= i < s.len() ==> (#[trigger] s[i]) != '|'
}

/// Label-text validity is visible on the UTF-8 bytes: the text is valid
/// exactly when no byte of its encoding is a reserved byte.
pub proof fn lemma_valid_label_text_bytes(s: Seq<char>)
    ensures
        valid_label_text(s) <==> (forall|j: int|
            0 <= j < encode_utf8(s).len() ==> !reserved_label_byte(#[trigger] encode_utf8(s)[j])),
{
    let e = encode_utf8(s);
    lemma_ascii_byte_occurs(s, 124);
    lemma_ascii_byte_occurs(s, 58);
    lemma_ascii_byte_occurs(s, 34);
    lemma_ascii_byte_occurs(s, 61);
    lemma_ascii_byte_occurs(s, 44);
    if valid_label_text(s) {
        assert forall|j: int| 0 <= j < e.len() implies !reserved_label_byte(#[trigger] e[j]) by {
            if reserved_label_byte(e[j]) {
                assert(e.contains(e[j]));
                let b = e[j];
                let i = choose|i: int| 0 <= i < s.len() && (s[i] as u32) == b as u32;
                char_u32_cast(s[i], b as u32);
                if b == 124 {
                    char_u32_cast('|', 124);
                } else if b == 58 {
                    char_u32_cast(':', 58);
                } else if b == 34 {
                    char_u32_cast('"', 34);
                } else if b == 61 {
                    char_u32_cast('=', 61);
                } else {
                    char_u32_cast(',', 44);
                }
                assert(reserved_label_char(s[i]));
            }
        }
    }
    if forall|j: int| 0 <= j < e.len() ==> !reserved_label_byte(#[trigger] e[j]) {
        assert forall|i: int| 0 <= i < s.len() implies !reserved_label_char(#[trigger] s[i]) by {
            if reserved_label_char(s[i]) {
                let b: u8 = if s[i] == '|' {
                    124
                } else if s[i] == ':' {
                    58
                } else if s[i] == '"' {
                    34
                } else if s[i] == '=' {
                    61
                } else {
                    44
                };
                assert((s[i] as u32) == b as u32);
                assert(e.contains(b));
                let j = choose|j: int| 0 <= j < e.len() && e[j] == b;
                assert(reserved_label_byte(e[j]));
            }
        }
    }
}

/// Name validity is visible on the UTF-8 bytes.
pub proof fn lemma_valid_name_bytes(s: Seq<char>)
    ensures
        valid_name(s) <==> (forall|j: int|
            0 <= j < encode_utf8(s).len() ==> (#[trigger] encode_utf8(s)[j]) != 124),
{
    let e = encode_utf8(s);
    lemma_ascii_byte_occurs(s, 124);
    if valid_name(s) {
        assert forall|j: int| 0 <= j < e.len() implies (#[trigger] e[j]) != 124 by {
            if e[j] == 124 {
                assert(e.contains(124u8));
                let i = choose|i: int| 0 <= i < s.len() && (s[i] as u32) == 124u8 as u32;
                char_u32_cast(s[i], 124);
                char_u32_cast('|', 124);
                assert(s[i] == '|');
            }
        }
    }
    if forall|j: int| 0 <= j < e.len() ==> (#[trigger] e[j]) != 124 {
        assert forall|i: int| 0 <= i < s.len() implies (#[trigger] s[i]) != '|' by {
            if s[i] == '|' {
                assert((s[i] as u32) == 124);
                assert(e.contains(124u8));
            }
        }
    }
}

/// Whether a string is free of the reserved label characters.
pub fn check_label_text(s: &str) -> (r: bool)
    ensures
        r == valid_label_text(s@),
{
    let b = s.as_bytes();
    let mut i: usize = 0;
    let mut ok = true;
    while i < b.len()
        invariant
            0 <= i <= b@.len(),
            ok == (forall|j: int| 0 <= j < i ==> !reserved_label_byte(#[trigger] b@[j])),
        decreases b@.len() - i,
    {
        let c = b[i];
        if c == 124 || c == 58 || c == 34 || c == 61 || c == 44 {
            ok = false;
        }
        i = i + 1;
    }
    proof {
        lemma_valid_label_text_bytes(s@);
    }
    ok
}

/// Whether a string is free of the field separator `|`.
pub fn check_name_text(s: &str) -> (r: bool)
    ensures
        r == valid_name(s@),
{
    let b = s.as_bytes();
    let mut i: usize = 0;
    let mut ok = true;
    while i < b.len()
        invariant
            0 <= i <= b@.len(),
            ok == (forall|j: int| 0 <= j < i ==> (#[trigger] b@[j]) != 124),
        decreases b@.len() - i,
    {
        if b[i] == 124 {
            ok = false;
        }
        i = i + 1;
    }
    proof {
        lemma_valid_name_bytes(s@);
    }
    ok
}

/// Whether every label of a sequence is free of reserved characters.
pub fn check_labels(ctx: &Context) -> (r: bool)
    ensures
        r == valid_labels(ctx@),
{
    let mut i: usize = 0;
    while i < ctx.0.len()
        invariant
            0 <= i <= ctx.0@.len(),
            forall|j: int| 0 <= j < i ==> valid_label(#[trigger] ctx@[j]),
        decreases ctx.0@.len() - i,
    {
        let k_ok = check_label_text(ctx.0[i].key.as_str());
        let v_ok = check_label_text(ctx.0[i].value.as_str());
        if !k_ok || !v_ok {
            proof {
                assert(!valid_label(ctx@[i as int]));
            }
            return false;
        }
        i = i + 1;
    }
    true
}

/// The canonical key-form of one label: `key="value"`.
pub open spec fn label_pair_chars(l: LabelModel) -> Seq<char> {
    l.key + seq!['=', '"'] + l.value + seq!['"']
}

/// The canonical key-form of a label sequence: the pairs joined by `,` in
/// append order.
pub open spec fn labels_form_chars(ls: Seq<LabelModel>) -> Seq<char>
    decreases ls.len(),
{
    if ls.len() == 0 {
        Seq::empty()
    } else if ls.len() == 1 {
        label_pair_chars(ls[0])
    } else {
        label_pair_chars(ls[0]) + seq![','] + labels_form_chars(ls.drop_first())
    }
}

/// Appending a label extends the key-form at the right.
pub proof fn lemma_labels_form_snoc(ls: Seq<LabelModel>, l: LabelModel)
    ensures
        ls.len() == 0 ==> labels_form_chars(ls.push(l)) == label_pair_chars(l),
        ls.len() > 0 ==> labels_form_chars(ls.push(l)) == labels_form_chars(ls) + seq![',']
            + label_pair_chars(l),
    decreases ls.len(),
{
    if ls.len() == 0 {
        assert(ls.push(l)[0] == l);
        assert(labels_form_chars(ls.push(l)) == label_pair_chars(l));
    } else {
        let s = ls.push(l);
        assert(s.len() >= 2);
        assert(s[0] == ls[0]);
        assert(s.drop_first() =~= ls.drop_first().push(l));
        lemma_labels_form_snoc(ls.drop_first(), l);
        if ls.len() == 1 {
            assert(ls.drop_first().len() == 0);
            assert(labels_form_chars(s) == label_pair_chars(ls[0]) + seq![','] + label_pair_chars(
                l,
            ));
            assert(labels_form_chars(ls) == label_pair_chars(ls[0]));
        } else {
            assert(labels_form_chars(s) == label_pair_chars(ls[0]) + seq![','] + (
            labels_form_chars(ls.drop_first()) + seq![','] + label_pair_chars(l)));
            assert(labels_form_chars(ls) == label_pair_chars(ls[0]) + seq![','] + labels_form_chars(
                ls.drop_first(),
            ));
            assert(labels_form_chars(s) =~= labels_form_chars(ls) + seq![','] + label_pair_chars(
                l,
            ));
        }
    }
}

/// Reading up to a separator that occurs in neither side is unambiguous:
/// if `a · c · x` is a prefix of `b · c · y` and neither `a` nor `b`
/// contains `c`, then `a` and `b` agree and `x` is a prefix of `y`.
pub proof fn lemma_prefix_after_sep(a: Seq<char>, x: Seq<char>, b: Seq<char>, y: Seq<char>, c: char)
    requires
        !a.contains(c),
        !b.contains(c),
        (a + seq![c] + x).is_prefix_of(b + seq![c] + y),
    ensures
        a == b,
        x.is_prefix_of(y),
{
    let lhs = a + seq![c] + x;
    let rhs = b + seq![c] + y;
    assert(lhs.len() <= rhs.len());
    assert(forall|i: int| 0 <= i < lhs.len() ==> lhs[i] == rhs[i]) by {
        assert(lhs =~= rhs.subrange(0, lhs.len() as int));
    }
    if a.len() < b.len() {
        assert(lhs[a.len() as int] == c);
        assert(rhs[a.len() as int] == b[a.len() as int]);
        assert(b.contains(c)) by {
            assert(b[a.len() as int] == c);
        }
        assert(false);
    }
    if a.len() > b.len() {
        assert(rhs[b.len() as int] == c);
        assert(lhs[b.len() as int] == a[b.len() as int]);
        assert(a.contains(c)) by {
            assert(a[b.len() as int] == c);
        }
        assert(false);
    }
    assert(a.len() == b.len());
    assert forall|i: int| 0 <= i < a.len() implies a[i] == b[i] by {
        assert(lhs[i] == a[i]);
        assert(rhs[i] == b[i]);
    }
    assert(a =~= b);
    assert forall|i: int| 0 <= i < x.len() implies x[i] == y.subrange(0, x.len() as int)[i] by {
        assert(lhs[a.len() + 1 + i] == x[i]);
        assert(rhs[b.len() + 1 + i] == y[i]);
    }
    assert(x =~= y.subrange(0, x.len() as int));
}

/// Dropping a shared head keeps the prefix relation.
pub proof fn lemma_strip_head(h: Seq<char>, s: Seq<char>, t: Seq<char>)
    requires
        (h + s).is_prefix_of(h + t),
    ensures
        s.is_prefix_of(t),
{
    let lhs = h + s;
    let rhs = h + t;
    assert(forall|i: int| 0 <= i < lhs.len() ==> lhs[i] == rhs[i]) by {
        assert(lhs =~= rhs.subrange(0, lhs.len() as int));
    }
    assert forall|i: int| 0 <= i < s.len() implies s[i] == t.subrange(0, s.len() as int)[i] by {
        assert(lhs[h.len() + i] == s[i]);
        assert(rhs[h.len() + i] == t[i]);
    }
    assert(s =~= t.subrange(0, s.len() as int));
}

/// The key-form of a non-empty label sequence is never empty.
pub proof fn lemma_labels_form_nonempty(ls: Seq<LabelModel>)
    requires
        ls.len() > 0,
    ensures
        labels_form_chars(ls).len() >= 3,
{
}

/// On valid labels the key-form is injective: no label sequence can
/// impersonate another's canonical form.
pub proof fn lemma_labels_form_injective(a: Seq<LabelModel>, b: Seq<LabelModel>)
    requires
        valid_labels(a),
        valid_labels(b),
        labels_form_chars(a) == labels_form_chars(b),
    ensures
        a == b,
    decreases a.len(),
{
    if a.len() == 0 {
        if b.len() > 0 {
            lemma_labels_form_nonempty(b);
        }
        assert(a =~= b);
    } else if b.len() == 0 {
        lemma_labels_form_nonempty(a);
    } else {
        let la = a[0];
        let lb = b[0];
        let ta: Seq<char> = if a.len() == 1 {
            Seq::empty()
        } else {
            seq![','] + labels_form_chars(a.drop_first())
        };
        let tb: Seq<char> = if b.len() == 1 {
            Seq::empty()
        } else {
            seq![','] + labels_form_chars(b.drop_first())
        };
        let fa = labels_form_chars(a);
        let fb = labels_form_chars(b);
        assert(fa =~= la.key + seq!['='] + (seq!['"'] + la.value + seq!['"'] + ta));
        assert(fb =~= lb.key + seq!['='] + (seq!['"'] + lb.value + seq!['"'] + tb));
        assert(!la.key.contains('=') && !lb.key.contains('=')) by {
            if la.key.contains('=') {
                let i = choose|i: int| 0 <= i < la.key.len() && la.key[i] == '=';
                assert(reserved_label_char(la.key[i]));
                assert(valid_label(a[0]));
            }
            if lb.key.contains('=') {
                let i = choose|i: int| 0 <= i < lb.key.len() && lb.key[i] == '=';
                assert(reserved_label_char(lb.key[i]));
                assert(valid_label(b[0]));
            }
        }
        assert(fa.is_prefix_of(fb));
        lemma_prefix_after_sep(
            la.key,
            seq!['"'] + la.value + seq!['"'] + ta,
            lb.key,
            seq!['"'] + lb.value + seq!['"'] + tb,
            '=',
        );
        // strip the opening quote, then split at the closing quote
        let xa = la.value + seq!['"'] + ta;
        let xb = lb.value + seq!['"'] + tb;
        assert((seq!['"'] + xa).is_prefix_of(seq!['"'] + xb)) by {
            assert(seq!['"'] + la.value + seq!['"'] + ta =~= seq!['"'] + xa);
            assert(seq!['"'] + lb.value + seq!['"'] + tb =~= seq!['"'] + xb);
            assert(fa.len() <= fb.len());
        }
        lemma_strip_head(seq!['"'], xa, xb);
        assert((la.value + seq!['"'] + ta).is_prefix_of(lb.value + seq!['"'] + tb));
        assert(!la.value.contains('"') && !lb.value.contains('"')) by {
            if la.value.contains('"') {
                let i = choose|i: int| 0 <= i < la.value.len() && la.value[i] == '"';
                assert(reserved_label_char(la.value[i]));
                assert(valid_label(a[0]));
            }
            if lb.value.contains('"') {
                let i = choose|i: int| 0 <= i < lb.value.len() && lb.value[i] == '"';
                assert(reserved_label_char(lb.value[i]));
                assert(valid_label(b[0]));
            }
        }
        lemma_prefix_after_sep(la.value, ta, lb.value, tb, '"');
        assert(la == lb);
        // the tails agree in length because the whole forms do
        assert(fa.len() == fb.len());
        assert(ta.len() == tb.len());
        assert(ta =~= tb) by {
            assert(ta.is_prefix_of(tb));
        }
        if a.len() == 1 {
            assert(tb.len() == 0);
            if b.len() > 1 {
                lemma_labels_form_nonempty(b.drop_first());
                assert(tb.len() >= 4);
            }
            assert(b.len() == 1);
            assert(a =~= b);
        } else {
            if b.len() == 1 {
                lemma_labels_form_nonempty(a.drop_first());
                assert(ta.len() >= 4);
                assert(tb.len() == 0);
                assert(false);
            }
            assert(labels_form_chars(a.drop_first()) =~= ta.drop_first());
            assert(labels_form_chars(b.drop_first()) =~= tb.drop_first());
            assert(valid_labels(a.drop_first()) && valid_labels(b.drop_first())) by {
                assert(forall|i: int|
                    0 <= i < a.drop_first().len() ==> #[trigger] a.drop_first()[i] == a[i + 1]);
                assert(forall|i: int|
                    0 <= i < b.drop_first().len() ==> #[trigger] b.drop_first()[i] == b[i + 1]);
            }
            lemma_labels_form_injective(a.drop_first(), b.drop_first());
            assert(a =~= seq![a[0]] + a.drop_first());
            assert(b =~= seq![b[0]] + b.drop_first());
        }
    }
}

impl Context {
    /// Append one label.
    pub fn add_value(&mut self, key: &str, value: &str)
        ensures
            final(self)@ == old(self)@.push((LabelModel { key: key@, value: value@ })),
    {
        self.0.push(ContextValue { key: key.to_owned(), value: value.to_owned() });
        proof {
            assert(final(self)@ =~= old(self)@.push((LabelModel { key: key@, value: value@ })));
        }
    }

    /// Append one label, builder style.
    pub fn with_value(self, key: &str, value: &str) -> (r: Self)
        ensures
            r@ == self@.push((LabelModel { key: key@, value: value@ })),
    {
        let mut this = self;
        this.add_value(key, value);
        this
    }

    /// The canonical key-form `k1="v1",k2="v2",…` of these labels.
    pub fn to_key_string(&self) -> (r: String)
        ensures
            r@ == labels_form_chars(self@),
    {
        let bytes = self.to_key_bytes();
        proof {
            encode_utf8_valid_utf8(labels_form_chars(self@));
        }
        let r = string_from_utf8_bytes(bytes);
        proof {
            lemma_encode_utf8_injective(r@, labels_form_chars(self@));
        }
        r
    }

    /// The canonical key-form of these labels, as UTF-8 bytes.
    pub fn to_key_bytes(&self) -> (r: Vec<u8>)
        ensures
            r@ == encode_utf8(labels_form_chars(self@)),
    {
        let mut out: Vec<u8> = Vec::new();
        let mut i: usize = 0;
        proof {
            assert(self@.subrange(0, 0) =~= Seq::<LabelModel>::empty());
            assert(out@ =~= encode_utf8(labels_form_chars(self@.subrange(0, 0))));
        }
        while i < self.0.len()
            invariant
                0 <= i <= self.0@.len(),
                self@.len() == self.0@.len(),
                out@ == encode_utf8(labels_form_chars(self@.subrange(0, i as int))),
            decreases self.0@.len() - i,
        {
            let ghost pre = self@.subrange(0, i as int);
            let ghost post = self@.subrange(0, i as int + 1);
            let ghost l = self@[i as int];
            if i > 0 {
                push_ascii(&mut out, ',');
                proof {
                    lemma_encode_utf8_concat(labels_form_chars(pre), seq![',']);
                }
            }
            push_str_bytes(&mut out, self.0[i].key.as_str());
            push_ascii(&mut out, '=');
            push_ascii(&mut out, '"');
            push_str_bytes(&mut out, self.0[i].value.as_str());
            push_ascii(&mut out, '"');
            proof {
                assert(post.drop_last() =~= pre);
                assert(post =~= pre.push(l));
                lemma_labels_form_snoc(pre, l);
                lemma_encode_utf8_concat(l.key, seq!['=', '"']);
                lemma_encode_utf8_concat(l.key + seq!['=', '"'], l.value);
                lemma_encode_utf8_concat(l.key + seq!['=', '"'] + l.value, seq!['"']);
                assert(encode_utf8(seq!['=', '"']) =~= encode_utf8(seq!['=']) + encode_utf8(
                    seq!['"'],
                )) by {
                    lemma_encode_utf8_concat(seq!['='], seq!['"']);
                    assert(seq!['='] + seq!['"'] =~= seq!['=', '"']);
                }
                if i > 0 {
                    lemma_encode_utf8_concat(
                        labels_form_chars(pre) + seq![','],
                        label_pair_chars(l),
                    );
                    assert(out@ =~= encode_utf8(labels_form_chars(post)));
                } else {
                    assert(labels_form_chars(post) == label_pair_chars(l));
                    assert(out@ =~= encode_utf8(labels_form_chars(post)));
                }
            }
            i = i + 1;
        }
        proof {
            assert(self@.subrange(0, self@.len() as int) =~= self@);
        }
        out
    }
}

} // verus!
