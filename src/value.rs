//! The value tree that a document is parsed into, and its mathematical model.

use vstd::prelude::*;
use vstd::utf8::encode_utf8;

verus! {

/// A number literal as written: an optional minus sign, the digits before the
/// point and the digits after it (ASCII digits; `frac` is empty without a point).
#[derive(Debug, PartialEq)]
pub struct Decimal {
    pub negative: bool,
    pub whole: Vec<u8>,
    pub frac: Vec<u8>,
}

pub open spec fn is_digit(c: u8) -> bool {
    0x30 <= c <= 0x39
}

pub open spec fn all_digits(s: Seq<u8>) -> bool {
    forall|k: int| 0 <= k < s.len() ==> is_digit(#[trigger] s[k])
}

/// The text of a number literal with the given sign and digits.
pub open spec fn number_text(negative: bool, whole: Seq<u8>, frac: Seq<u8>) -> Seq<u8> {
    (if negative { seq![0x2du8] } else { Seq::empty() }) + whole + (if frac.len() > 0 {
        seq![0x2eu8] + frac
    } else {
        Seq::empty()
    })
}

impl Decimal {
    /// A well-formed literal: at least one digit before the point, and only
    /// digits on either side of it.
    pub open spec fn wf(&self) -> bool {
        self.whole@.len() > 0 && all_digits(self.whole@) && all_digits(self.frac@)
    }

    /// The literal's text.
    pub open spec fn text(&self) -> Seq<u8> {
        number_text(self.negative, self.whole@, self.frac@)
    }
}

/// A parsed value. A dictionary holds its entries with unique keys, in
/// ascending order of the keys' UTF-8 bytes.
#[derive(Debug, PartialEq)]
pub enum BObject {
    Number(Decimal),
    String(String),
    List(Vec<BObject>),
    Dictionary(Vec<(String, BObject)>),
}

/// The mathematical model of a [`BObject`].
pub enum Value {
    Number(Seq<u8>),
    Text(Seq<char>),
    List(Seq<Value>),
    Dict(Seq<(Seq<char>, Value)>),
}

impl BObject {
    pub open spec fn model(&self) -> Value
        decreases self,
    {
        match self {
            BObject::Number(d) => Value::Number(d.text()),
            BObject::String(s) => Value::Text(s@),
            BObject::List(v) => Value::List(
                Seq::new(
                    v@.len(),
                    |i: int|
                        if 0 <= i < v.len() {
                            v[i].model()
                        } else {
                            Value::Text(Seq::empty())
                        },
                ),
            ),
            BObject::Dictionary(v) => Value::Dict(
                Seq::new(
                    v@.len(),
                    |i: int|
                        if 0 <= i < v.len() {
                            (v[i].0@, v[i].1.model())
                        } else {
                            (Seq::empty(), Value::Text(Seq::empty()))
                        },
                ),
            ),
        }
    }
}

/// The model of a sequence of list items.
pub open spec fn items_model(v: Seq<BObject>) -> Seq<Value> {
    Seq::new(v.len(), |i: int| v[i].model())
}

/// The model of a sequence of dictionary entries.
pub open spec fn entries_model(v: Seq<(String, BObject)>) -> Seq<(Seq<char>, Value)> {
    Seq::new(v.len(), |i: int| (v[i].0@, v[i].1.model()))
}

pub proof fn lemma_list_model(v: Vec<BObject>)
    ensures
        BObject::List(v).model() == Value::List(items_model(v@)),
{
    let m = BObject::List(v).model();
    assert(m->List_0 =~= items_model(v@));
}

pub proof fn lemma_dict_model(v: Vec<(String, BObject)>)
    ensures
        BObject::Dictionary(v).model() == Value::Dict(entries_model(v@)),
{
    let m = BObject::Dictionary(v).model();
    assert(m->Dict_0 =~= entries_model(v@));
}

/// Strict lexicographic order on byte strings.
pub open spec fn bytes_lt(a: Seq<u8>, b: Seq<u8>) -> bool
    decreases a.len(),
{
    if a.len() == 0 {
        b.len() > 0
    } else if b.len() == 0 {
        false
    } else if a[0] != b[0] {
        a[0] < b[0]
    } else {
        bytes_lt(a.drop_first(), b.drop_first())
    }
}

/// The order of dictionary keys: that of their UTF-8 encodings.
pub open spec fn key_lt(a: Seq<char>, b: Seq<char>) -> bool {
    bytes_lt(encode_utf8(a), encode_utf8(b))
}

/// The entries after `key` is bound to `val`: an entry with an equal key is
/// replaced, else a new one goes before the first greater key.
pub open spec fn dict_insert(e: Seq<(Seq<char>, Value)>, key: Seq<char>, val: Value) -> Seq<
    (Seq<char>, Value),
>
    decreases e.len(),
{
    if e.len() == 0 {
        seq![(key, val)]
    } else if e[0].0 == key {
        seq![(key, val)] + e.drop_first()
    } else if key_lt(key, e[0].0) {
        seq![(key, val)] + e
    } else {
        seq![e[0]] + dict_insert(e.drop_first(), key, val)
    }
}

/// The value bound to `key`, if any.
pub open spec fn dict_get(e: Seq<(Seq<char>, Value)>, key: Seq<char>) -> Option<Value>
    decreases e.len(),
{
    if e.len() == 0 {
        None
    } else if e[0].0 == key {
        Some(e[0].1)
    } else {
        dict_get(e.drop_first(), key)
    }
}

/// Each key comes before the next in key order: the keys are unique and
/// ascending.
pub open spec fn keys_ascending(e: Seq<(Seq<char>, Value)>) -> bool {
    forall|i: int| 0 <= i < e.len() - 1 ==> key_lt(#[trigger] e[i].0, e[i + 1].0)
}

proof fn lemma_bytes_lt_total(a: Seq<u8>, b: Seq<u8>)
    requires
        a != b,
    ensures
        bytes_lt(a, b) || bytes_lt(b, a),
    decreases a.len(),
{
    if a.len() == 0 {
        assert(b.len() != 0) by {
            if b.len() == 0 {
                assert(a =~= b);
            }
        }
    } else if b.len() != 0 && a[0] == b[0] {
        assert(a.drop_first() != b.drop_first()) by {
            if a.drop_first() == b.drop_first() {
                assert(a =~= seq![a[0]] + a.drop_first());
                assert(b =~= seq![b[0]] + b.drop_first());
            }
        }
        lemma_bytes_lt_total(a.drop_first(), b.drop_first());
    }
}

/// Two different keys are ordered one way or the other.
proof fn lemma_key_lt_total(a: Seq<char>, b: Seq<char>)
    requires
        a != b,
    ensures
        key_lt(a, b) || key_lt(b, a),
{
    vstd::utf8::encode_utf8_decode_utf8(a);
    vstd::utf8::encode_utf8_decode_utf8(b);
    lemma_bytes_lt_total(encode_utf8(a), encode_utf8(b));
}

/// Binding a key keeps the keys unique and ascending; every entry after it is
/// the new binding or one of before.
pub proof fn lemma_insert_ascending(e: Seq<(Seq<char>, Value)>, key: Seq<char>, val: Value)
    requires
        keys_ascending(e),
    ensures
        keys_ascending(dict_insert(e, key, val)),
        forall|i: int|
            0 <= i < dict_insert(e, key, val).len() ==> #[trigger] dict_insert(e, key, val)[i] == (
            key,
            val,
        ) || e.contains(dict_insert(e, key, val)[i]),
        dict_insert(e, key, val).len() > 0,
        dict_insert(e, key, val)[0] == (key, val) || dict_insert(e, key, val)[0] == e[0],
    decreases e.len(),
{
    let r = dict_insert(e, key, val);
    if e.len() == 0 {
    } else if e[0].0 == key {
        assert forall|i: int| 0 <= i < r.len() - 1 implies key_lt(#[trigger] r[i].0, r[i + 1].0) by {
            if i > 0 {
                assert(r[i] == e[i] && r[i + 1] == e[i + 1]);
            }
        }
        assert forall|i: int| 0 <= i < r.len() && r[i] != (key, val) implies e.contains(#[trigger] r[i]) by {
            assert(r[i] == e[i]);
        }
    } else if key_lt(key, e[0].0) {
        assert forall|i: int| 0 <= i < r.len() - 1 implies key_lt(#[trigger] r[i].0, r[i + 1].0) by {
            if i > 0 {
                assert(r[i] == e[i - 1] && r[i + 1] == e[i]);
            }
        }
        assert forall|i: int| 0 <= i < r.len() && r[i] != (key, val) implies e.contains(#[trigger] r[i]) by {
            assert(r[i] == e[i - 1]);
        }
    } else {
        let t = e.drop_first();
        assert forall|i: int| 0 <= i < t.len() - 1 implies key_lt(#[trigger] t[i].0, t[i + 1].0) by {
            assert(t[i] == e[i + 1] && t[i + 1] == e[i + 2]);
        }
        lemma_insert_ascending(t, key, val);
        lemma_key_lt_total(key, e[0].0);
        let rt = dict_insert(t, key, val);
        assert(r == seq![e[0]] + rt);
        assert forall|i: int| 0 <= i < r.len() - 1 implies key_lt(#[trigger] r[i].0, r[i + 1].0) by {
            if i == 0 {
                assert(r[1] == rt[0]);
                if rt[0] != (key, val) {
                    assert(rt[0] == t[0]);
                    assert(t[0] == e[1]);
                }
            } else {
                assert(r[i] == rt[i - 1] && r[i + 1] == rt[i]);
            }
        }
        assert forall|i: int| 0 <= i < r.len() && r[i] != (key, val) implies e.contains(#[trigger] r[i]) by {
            if i == 0 {
                assert(r[0] == e[0]);
            } else {
                assert(r[i] == rt[i - 1]);
                let x = choose|x: int| 0 <= x < t.len() && t[x] == rt[i - 1];
                assert(e[x + 1] == t[x]);
            }
        }
    }
}

/// Entries before index `i` neither match `key` nor follow it in key order.
pub open spec fn all_before(e: Seq<(Seq<char>, Value)>, key: Seq<char>, i: int) -> bool {
    forall|j: int| 0 <= j < i ==> e[j].0 != key && !key_lt(key, #[trigger] e[j].0)
}

proof fn lemma_insert_skips(e: Seq<(Seq<char>, Value)>, key: Seq<char>, val: Value, i: int)
    requires
        0 <= i <= e.len(),
        all_before(e, key, i),
    ensures
        dict_insert(e, key, val) == e.subrange(0, i) + dict_insert(e.subrange(i, e.len() as int), key, val),
    decreases i,
{
    if i == 0 {
        assert(e.subrange(0, 0) + dict_insert(e.subrange(0, e.len() as int), key, val) =~= dict_insert(e, key, val)) by {
            assert(e.subrange(0, e.len() as int) =~= e);
        }
    } else {
        let t = e.drop_first();
        assert forall|j: int| 0 <= j < i - 1 implies t[j].0 != key && !key_lt(key, #[trigger] t[j].0) by {
            assert(t[j] == e[j + 1]);
        }
        lemma_insert_skips(t, key, val, i - 1);
        assert(e[0].0 != key && !key_lt(key, e[0].0));
        assert(t.subrange(i - 1, t.len() as int) =~= e.subrange(i, e.len() as int));
        assert(seq![e[0]] + t.subrange(0, i - 1) =~= e.subrange(0, i));
        assert(seq![e[0]] + (t.subrange(0, i - 1) + dict_insert(t.subrange(i - 1, t.len() as int), key, val))
            =~= e.subrange(0, i) + dict_insert(e.subrange(i, e.len() as int), key, val));
    }
}

/// Whether `a` comes before `b` in byte order.
fn bytes_less(a: &[u8], b: &[u8]) -> (r: bool)
    ensures
        r == bytes_lt(a@, b@),
{
    let mut i: usize = 0;
    assert(a@.subrange(0, a@.len() as int) =~= a@);
    assert(b@.subrange(0, b@.len() as int) =~= b@);
    while i < a.len() && i < b.len()
        invariant
            i <= a@.len(),
            i <= b@.len(),
            bytes_lt(a@, b@) == bytes_lt(a@.subrange(i as int, a@.len() as int), b@.subrange(i as int, b@.len() as int)),
        decreases a@.len() - i,
    {
        let ghost sa = a@.subrange(i as int, a@.len() as int);
        let ghost sb = b@.subrange(i as int, b@.len() as int);
        assert(sa[0] == a@[i as int] && sb[0] == b@[i as int]);
        if a[i] != b[i] {
            return a[i] < b[i];
        }
        assert(sa.drop_first() =~= a@.subrange(i + 1, a@.len() as int));
        assert(sb.drop_first() =~= b@.subrange(i + 1, b@.len() as int));
        i = i + 1;
    }
    let ghost sa = a@.subrange(i as int, a@.len() as int);
    let ghost sb = b@.subrange(i as int, b@.len() as int);
    assert(sa.len() == 0 || sb.len() == 0);
    i == a.len() && i < b.len()
}

/// Binds `key` to `val` in a dictionary's entries: an entry with the same key
/// is replaced, a new key goes to its place in key order.
pub fn dict_put(entries: &mut Vec<(String, BObject)>, key: String, val: BObject)
    ensures
        entries_model(final(entries)@) == dict_insert(entries_model(old(entries)@), key@, val.model()),
{
    let ghost e0 = entries_model(entries@);
    let ghost km = key@;
    let ghost vm = val.model();
    let mut i: usize = 0;
    while i < entries.len()
        invariant
            entries@ == old(entries)@,
            e0 == entries_model(entries@),
            km == key@,
            vm == val.model(),
            i <= entries@.len(),
            all_before(e0, km, i as int),
        decreases entries@.len() - i,
    {
        let ghost ei = e0.subrange(i as int, e0.len() as int);
        assert(ei[0] == e0[i as int]);
        if key == entries[i].0 {
            proof {
                lemma_insert_skips(e0, km, vm, i as int);
            }
            entries.remove(i);
            entries.insert(i, (key, val));
            proof {
                assert(ei.drop_first() =~= e0.subrange(i + 1, e0.len() as int));
                assert(entries_model(entries@) =~= e0.subrange(0, i as int) + dict_insert(ei, km, vm));
            }
            return;
        }
        let before = bytes_less(key.as_str().as_bytes(), entries[i].0.as_str().as_bytes());
        if before {
            proof {
                lemma_insert_skips(e0, km, vm, i as int);
            }
            entries.insert(i, (key, val));
            proof {
                assert(entries_model(entries@) =~= e0.subrange(0, i as int) + dict_insert(ei, km, vm));
            }
            return;
        }
        i = i + 1;
    }
    proof {
        lemma_insert_skips(e0, km, vm, i as int);
        assert(e0.subrange(i as int, e0.len() as int) =~= Seq::<(Seq<char>, Value)>::empty());
    }
    entries.push((key, val));
    proof {
        assert(entries_model(entries@) =~= e0.subrange(0, i as int) + seq![(km, vm)]);
    }
}

impl BObject {
    /// The value bound to `key`, where this is a dictionary that binds it.
    pub fn get(&self, key: &str) -> (r: Option<&BObject>)
        ensures
            match self {
                BObject::Dictionary(e) => match dict_get(entries_model(e@), key@) {
                    Some(m) => r matches Some(v) && v.model() == m,
                    None => r is None,
                },
                _ => r is None,
            },
    {
        match self {
            BObject::Dictionary(e) => {
                let k = key.to_owned();
                let ghost em = entries_model(e@);
                let mut i: usize = 0;
                assert(em.subrange(0, em.len() as int) =~= em);
                while i < e.len()
                    invariant
                        *self == BObject::Dictionary(*e),
                        i <= e@.len(),
                        em == entries_model(e@),
                        k@ == key@,
                        dict_get(em, key@) == dict_get(em.subrange(i as int, em.len() as int), key@),
                    decreases e@.len() - i,
                {
                    let ghost rest = em.subrange(i as int, em.len() as int);
                    assert(rest[0] == em[i as int]);
                    if e[i].0 == k {
                        return Some(&e[i].1);
                    }
                    assert(rest.drop_first() =~= em.subrange(i + 1, em.len() as int));
                    i = i + 1;
                }
                None
            },
            _ => None,
        }
    }
}

} // verus!
