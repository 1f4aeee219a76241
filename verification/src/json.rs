//! JSON values held as plain data, with their mathematical model.

use vstd::prelude::*;
use crate::text::{chars_of, copy_str, str_eq};

verus! {

/// A JSON value. A number is held as its decimal text, as JSON writes it.
#[derive(Debug)]
pub enum JsonValue {
    Null,
    Bool(bool),
    Number(String),
    Str(String),
    Array(Vec<JsonValue>),
    Object(Vec<(String, JsonValue)>),
}

/// The mathematical model of a JSON value.
pub enum Json {
    Null,
    Bool(bool),
    Number(Seq<char>),
    Str(Seq<char>),
    Array(Seq<Json>),
    Object(Seq<Seq<char>>, Seq<Json>),
}

impl View for JsonValue {
    type V = Json;

    open spec fn view(&self) -> Json
        decreases self,
    {
        match self {
            JsonValue::Null => Json::Null,
            JsonValue::Bool(b) => Json::Bool(*b),
            JsonValue::Number(n) => Json::Number(n@),
            JsonValue::Str(s) => Json::Str(s@),
            JsonValue::Array(v) => Json::Array(
                Seq::new(v.len() as nat, |i: int| if 0 <= i < v.len() { v[i]@ } else { Json::Null }),
            ),
            JsonValue::Object(v) => Json::Object(
                Seq::new(v.len() as nat, |i: int| v@[i].0@),
                Seq::new(v.len() as nat, |i: int| if 0 <= i < v.len() { v[i].1@ } else { Json::Null }),
            ),
        }
    }
}

/// Model of an optional JSON value.
pub open spec fn opt_json(o: Option<JsonValue>) -> Option<Json> {
    match o {
        Some(v) => Some(v@),
        None => None,
    }
}

/// Model of an optional string.
pub open spec fn opt_str(o: Option<String>) -> Option<Seq<char>> {
    match o {
        Some(v) => Some(v@),
        None => None,
    }
}

/// Models of a vector of strings.
pub open spec fn strs(v: Seq<String>) -> Seq<Seq<char>> {
    v.map_values(|s: String| s@)
}

/// Index of the first key equal to `k` at or after `i`, or `keys.len()`.
pub open spec fn key_index(keys: Seq<Seq<char>>, k: Seq<char>, i: int) -> int
    decreases keys.len() - i,
{
    if i < 0 || i >= keys.len() {
        keys.len() as int
    } else if keys[i] == k {
        i
    } else {
        key_index(keys, k, i + 1)
    }
}

pub proof fn lemma_key_index(ks: Seq<Seq<char>>, k: Seq<char>, i: int)
    requires
        0 <= i <= ks.len(),
    ensures
        i <= key_index(ks, k, i) <= ks.len(),
        key_index(ks, k, i) < ks.len() ==> ks[key_index(ks, k, i)] == k,
        forall|j: int| i <= j < key_index(ks, k, i) ==> ks[j] != k,
    decreases ks.len() - i,
{
    if i < ks.len() && ks[i] != k {
        lemma_key_index(ks, k, i + 1);
    }
}

/// `Value::get(key)`: the value under `k` when `j` is an object.
pub open spec fn json_get(j: Json, k: Seq<char>) -> Option<Json> {
    match j {
        Json::Object(ks, vs) => {
            let i = key_index(ks, k, 0);
            if 0 <= i < ks.len() && i < vs.len() {
                Some(vs[i])
            } else {
                None
            }
        },
        _ => None,
    }
}

/// `Value::as_str`.
pub open spec fn json_str(j: Json) -> Option<Seq<char>> {
    match j {
        Json::Str(s) => Some(s),
        _ => None,
    }
}

/// The string under key `k`, when there is one.
pub open spec fn get_str(j: Json, k: Seq<char>) -> Option<Seq<char>> {
    match json_get(j, k) {
        Some(v) => json_str(v),
        None => None,
    }
}

/// The string under `k1`, then under `k2`.
pub open spec fn get2_str(j: Json, k1: Seq<char>, k2: Seq<char>) -> Option<Seq<char>> {
    match json_get(j, k1) {
        Some(v) => get_str(v, k2),
        None => None,
    }
}

pub open spec fn json_array(j: Json) -> Option<Seq<Json>> {
    match j {
        Json::Array(a) => Some(a),
        _ => None,
    }
}

pub open spec fn is_digit(c: char) -> bool {
    '0' <= c <= '9'
}

/// Value of a sequence of decimal digits.
pub open spec fn digits_value(s: Seq<char>) -> nat
    decreases s.len(),
{
    if s.len() == 0 {
        0
    } else {
        digits_value(s.drop_last()) * 10 + ((s.last() as u32) - ('0' as u32)) as nat
    }
}

/// `Value::as_u64`: a number written with digits only that fits in 64 bits.
pub open spec fn json_u64(j: Json) -> Option<u64> {
    match j {
        Json::Number(t) => if t.len() > 0 && (forall|i: int| 0 <= i < t.len() ==> is_digit(t[i]))
            && digits_value(t) <= u64::MAX {
            Some(digits_value(t) as u64)
        } else {
            None
        },
        _ => None,
    }
}

/// `Value::as_i64`: an integer number that fits in 64 bits, signed.
pub open spec fn json_i64(j: Json) -> Option<i64> {
    match j {
        Json::Number(t) => if t.len() > 0 && (forall|i: int| 0 <= i < t.len() ==> is_digit(t[i]))
            && digits_value(t) <= i64::MAX {
            Some(digits_value(t) as i64)
        } else if t.len() > 1 && t[0] == '-' && (forall|i: int| 1 <= i < t.len() ==> is_digit(t[i]))
            && digits_value(t.drop_first()) <= 0x8000_0000_0000_0000 {
            Some((0 - digits_value(t.drop_first())) as i64)
        } else {
            None
        },
        _ => None,
    }
}

pub open spec fn arr_of(j: Json) -> Seq<Json> {
    match j {
        Json::Array(a) => a,
        _ => Seq::empty(),
    }
}

pub open spec fn keys_of(j: Json) -> Seq<Seq<char>> {
    match j {
        Json::Object(k, _) => k,
        _ => Seq::empty(),
    }
}

pub open spec fn vals_of(j: Json) -> Seq<Json> {
    match j {
        Json::Object(_, v) => v,
        _ => Seq::empty(),
    }
}

pub proof fn lemma_digits_prefix(s: Seq<char>, k: int)
    requires
        0 <= k <= s.len(),
    ensures
        digits_value(s.take(k)) <= digits_value(s),
    decreases s.len(),
{
    if k < s.len() {
        lemma_digits_prefix(s.drop_last(), k);
        assert(s.drop_last().take(k) == s.take(k));
    } else {
        assert(s.take(k) == s);
    }
}

impl JsonValue {
    /// `Value::get(key)`.
    pub fn get(&self, key: &str) -> (r: Option<&JsonValue>)
        ensures
            r matches Some(v) ==> json_get(self@, key@) == Some(v@),
            r is None ==> json_get(self@, key@) is None,
    {
        match self {
            JsonValue::Object(entries) => {
                let ghost ks = keys_of(self@);
                let ghost vs = vals_of(self@);
                assert(self@ is Object);
                let mut i: usize = 0;
                while i < entries.len()
                    invariant
                        i <= entries.len(),
                        self@ is Object,
                        ks == keys_of(self@),
                        vs == vals_of(self@),
                        ks.len() == entries.len(),
                        vs.len() == entries.len(),
                        forall|j: int| 0 <= j < entries.len() ==> #[trigger] ks[j] == entries@[j].0@,
                        forall|j: int| 0 <= j < entries.len() ==> #[trigger] vs[j] == entries@[j].1@,
                        key_index(ks, key@, 0) == key_index(ks, key@, i as int),
                    decreases entries.len() - i,
                {
                    if str_eq(entries[i].0.as_str(), key) {
                        assert(key_index(ks, key@, i as int) == i);
                        return Some(&entries[i].1);
                    }
                    i = i + 1;
                }
                None
            },
            _ => None,
        }
    }

    /// `Value::as_str`.
    pub fn as_str(&self) -> (r: Option<&String>)
        ensures
            r matches Some(s) ==> json_str(self@) == Some(s@),
            r is None ==> json_str(self@) is None,
    {
        match self {
            JsonValue::Str(s) => Some(s),
            _ => None,
        }
    }

    /// `Value::as_array`.
    pub fn as_array(&self) -> (r: Option<&Vec<JsonValue>>)
        ensures
            r matches Some(a) ==> json_array(self@) matches Some(s) && s.len() == a.len() && (
            forall|i: int| 0 <= i < a.len() ==> #[trigger] s[i] == a[i]@),
            r is None ==> json_array(self@) is None,
    {
        match self {
            JsonValue::Array(a) => {
                Some(a)
            },
            _ => None,
        }
    }

    /// The string under key `k`.
    pub fn get_str(&self, k: &str) -> (r: Option<&String>)
        ensures
            r matches Some(s) ==> get_str(self@, k@) == Some(s@),
            r is None ==> get_str(self@, k@) is None,
    {
        match self.get(k) {
            Some(v) => v.as_str(),
            None => None,
        }
    }

    /// `Value::as_u64`.
    pub fn as_u64(&self) -> (r: Option<u64>)
        ensures
            r == json_u64(self@),
    {
        match self {
            JsonValue::Number(t) => {
                let cs = chars_of(t.as_str());
                assert(self@ == Json::Number(t@));
                if cs.len() == 0 {
                    return None;
                }
                let mut acc: u64 = 0;
                let mut i: usize = 0;
                while i < cs.len()
                    invariant
                        i <= cs.len(),
                        cs@ == t@,
                        self@ == Json::Number(t@),
                        forall|j: int| 0 <= j < i ==> is_digit(cs@[j]),
                        acc == digits_value(cs@.take(i as int)),
                    decreases cs.len() - i,
                {
                    let c = cs[i];
                    if !('0' <= c && c <= '9') {
                        assert(!is_digit(t@[i as int]));
                        return None;
                    }
                    let d = (c as u32 - '0' as u32) as u64;
                    assert(cs@.take(i + 1).drop_last() == cs@.take(i as int));
                    if acc > (u64::MAX - d) / 10 {
                        proof {
                            lemma_digits_monotone(cs@, i as int + 1);
                            lemma_digits_prefix(cs@, i as int + 1);
                        }
                        return None;
                    }
                    acc = acc * 10 + d;
                    i = i + 1;
                }
                assert(cs@.take(cs.len() as int) == cs@);
                Some(acc)
            },
            _ => None,
        }
    }

    /// `Value::as_i64`.
    pub fn as_i64(&self) -> (r: Option<i64>)
        ensures
            r == json_i64(self@),
    {
        match self {
            JsonValue::Number(t) => {
                let cs = chars_of(t.as_str());
                assert(self@ == Json::Number(t@));
                let neg = cs.len() > 1 && cs[0] == '-';
                let start: usize = if neg { 1 } else { 0 };
                if cs.len() == 0 {
                    return None;
                }
                let mut acc: u64 = 0;
                let mut i: usize = start;
                let ghost body = cs@.skip(start as int);
                assert(body.take(0) == Seq::<char>::empty());
                while i < cs.len()
                    invariant
                        start <= i <= cs.len(),
                        start == (if neg { 1usize } else { 0usize }),
                        self@ == Json::Number(t@),
                        neg ==> cs@.len() > 1 && cs@[0] == '-',
                        !neg ==> !(cs@.len() > 1 && cs@[0] == '-'),
                        cs@ == t@,
                        body == cs@.skip(start as int),
                        forall|j: int| start <= j < i ==> is_digit(cs@[j]),
                        acc == digits_value(body.take(i - start)),
                        acc <= 0x8000_0000_0000_0000,
                    decreases cs.len() - i,
                {
                    let c = cs[i];
                    if !('0' <= c && c <= '9') {
                        proof {
                            assert(!is_digit(cs@[i as int]));
                            if neg {
                                assert(cs@.drop_first() == body);
                                assert(body[i - 1] == cs@[i as int]);
                            }
                        }
                        return None;
                    }
                    let d = (c as u32 - '0' as u32) as u64;
                    assert(body.take(i - start + 1).drop_last() == body.take(i - start));
                    if acc > (0x8000_0000_0000_0000u64 - d) / 10 {
                        proof {
                            lemma_digits_monotone(body, i - start + 1);
                            lemma_digits_prefix(body, i - start + 1);
                            if neg {
                                assert(cs@.drop_first() == body);
                            } else {
                                assert(cs@.skip(0) == cs@);
                                assert(is_digit(cs@[0]));
                            }
                        }
                        return None;
                    }
                    acc = acc * 10 + d;
                    i = i + 1;
                }
                assert(body.take(cs.len() - start) == body);
                if neg {
                    assert(cs@.drop_first() == body);
                    if acc == 0x8000_0000_0000_0000u64 {
                        Some(i64::MIN)
                    } else {
                        Some(-(acc as i64))
                    }
                } else {
                    assert(cs@.skip(0) == cs@);
                    if acc > 0x7FFF_FFFF_FFFF_FFFFu64 {
                        None
                    } else {
                        Some(acc as i64)
                    }
                }
            },
            _ => None,
        }
    }

    /// A copy with the same model.
    #[verifier::loop_isolation(false)]
    pub fn deep_clone(&self) -> (r: JsonValue)
        ensures
            r@ == self@,
        decreases self,
    {
        match self {
            JsonValue::Null => JsonValue::Null,
            JsonValue::Bool(b) => JsonValue::Bool(*b),
            JsonValue::Number(n) => JsonValue::Number(copy_str(n.as_str())),
            JsonValue::Str(s) => JsonValue::Str(copy_str(s.as_str())),
            JsonValue::Array(v) => {
                let mut out: Vec<JsonValue> = Vec::new();
                let mut i: usize = 0;
                while i < v.len()
                    invariant
                        i <= v.len(),
                        out.len() == i,
                        forall|j: int| 0 <= j < i ==> #[trigger] out[j]@ == v[j]@,
                    decreases v.len() - i,
                {
                    proof {
                        vstd::std_specs::vec::axiom_vec_index_decreases(*v, i as int);
                        assert(decreases_to!(self => v[i as int]));
                    }
                    let c = v[i].deep_clone();
                    out.push(c);
                    i = i + 1;
                }
                let ghost outs = out;
                let r = JsonValue::Array(out);
                proof {
                    assert(arr_of(r@).len() == outs.len());
                    assert(arr_of(self@).len() == v.len());
                    assert forall|j: int| 0 <= j < v.len() implies arr_of(r@)[j] == arr_of(self@)[j] by {
                        assert(arr_of(r@)[j] == outs[j]@);
                        assert(arr_of(self@)[j] == v[j]@);
                    }
                    assert(arr_of(r@) =~= arr_of(self@));
                }
                r
            },
            JsonValue::Object(v) => {
                let mut out: Vec<(String, JsonValue)> = Vec::new();
                let mut i: usize = 0;
                while i < v.len()
                    invariant
                        i <= v.len(),
                        out.len() == i,
                        forall|j: int|
                            0 <= j < i ==> #[trigger] out[j].0@ == v[j].0@ && out[j].1@ == v[j].1@,
                    decreases v.len() - i,
                {
                    proof {
                        vstd::std_specs::vec::axiom_vec_index_decreases(*v, i as int);
                        assert(decreases_to!(self => v[i as int].1));
                    }
                    let c = v[i].1.deep_clone();
                    out.push((copy_str(v[i].0.as_str()), c));
                    i = i + 1;
                }
                let ghost outs = out;
                let r = JsonValue::Object(out);
                proof {
                    assert forall|j: int| 0 <= j < v.len() implies vals_of(r@)[j] == vals_of(self@)[j] by {
                        assert(outs[j].0@ == v[j].0@);
                        assert(vals_of(r@)[j] == outs[j].1@);
                        assert(vals_of(self@)[j] == v[j].1@);
                    }
                    assert(keys_of(r@) =~= keys_of(self@));
                    assert(vals_of(r@) =~= vals_of(self@));
                }
                r
            },
        }
    }
}

pub proof fn lemma_digits_monotone(s: Seq<char>, n: int)
    requires
        0 < n <= s.len(),
        forall|i: int| 0 <= i < n ==> is_digit(s[i]),
    ensures
        digits_value(s.take(n)) == digits_value(s.take(n - 1)) * 10 + ((s[n - 1] as u32) - ('0' as u32)) as nat,
{
    assert(s.take(n).drop_last() == s.take(n - 1));
}

impl Clone for JsonValue {
    fn clone(&self) -> (r: JsonValue)
        ensures
            r@ == self@,
    {
        self.deep_clone()
    }
}

/// Keys of object entries.
pub open spec fn ekeys(s: Seq<(String, JsonValue)>) -> Seq<Seq<char>> {
    Seq::new(s.len(), |i: int| s[i].0@)
}

/// Values of object entries.
pub open spec fn evals(s: Seq<(String, JsonValue)>) -> Seq<Json> {
    Seq::new(s.len(), |i: int| s[i].1@)
}

pub proof fn lemma_object_view(v: Vec<(String, JsonValue)>)
    ensures
        JsonValue::Object(v)@ == Json::Object(ekeys(v@), evals(v@)),
{
    assert(keys_of(JsonValue::Object(v)@) =~= ekeys(v@));
    assert(vals_of(JsonValue::Object(v)@) =~= evals(v@));
}

/// A new, empty list of object entries.
pub fn new_entries() -> (e: Vec<(String, JsonValue)>)
    ensures
        e@.len() == 0,
        ekeys(e@) == Seq::<Seq<char>>::empty(),
        evals(e@) == Seq::<Json>::empty(),
{
    let e: Vec<(String, JsonValue)> = Vec::new();
    assert(ekeys(e@) =~= Seq::<Seq<char>>::empty());
    assert(evals(e@) =~= Seq::<Json>::empty());
    e
}

/// Appends the entry `k: v` to a list of object entries.
pub fn push_entry(e: &mut Vec<(String, JsonValue)>, k: &str, v: JsonValue)
    ensures
        ekeys(final(e)@) == ekeys(old(e)@).push(k@),
        evals(final(e)@) == evals(old(e)@).push(v@),
{
    let ghost vv = v@;
    e.push((copy_str(k), v));
    assert(ekeys(e@) =~= ekeys(old(e)@).push(k@));
    assert(evals(e@) =~= evals(old(e)@).push(vv));
}

/// The object made of the entries.
pub fn object(e: Vec<(String, JsonValue)>) -> (r: JsonValue)
    ensures
        r@ == Json::Object(ekeys(e@), evals(e@)),
{
    proof {
        lemma_object_view(e);
    }
    JsonValue::Object(e)
}

/// A number value from its text.
pub fn jnum(s: &str) -> (r: JsonValue)
    ensures
        r@ == Json::Number(s@),
{
    JsonValue::Number(copy_str(s))
}

/// A string value.
pub fn jstr(s: &str) -> (r: JsonValue)
    ensures
        r@ == Json::Str(s@),
{
    JsonValue::Str(copy_str(s))
}

/// A string value, taking the string.
pub fn jstring(s: String) -> (r: JsonValue)
    ensures
        r@ == Json::Str(s@),
{
    JsonValue::Str(s)
}

/// Copies an optional value.
pub fn clone_opt_json(o: &Option<JsonValue>) -> (r: Option<JsonValue>)
    ensures
        opt_json(r) == opt_json(*o),
{
    match o {
        Some(v) => Some(v.deep_clone()),
        None => None,
    }
}

} // verus!
