//! A random generator of syntactically valid JSON text.
//!
//! The shape of every generated value is drawn from a pseudo-random number
//! generator; the text built around those draws is verified to be the
//! serialization of some well-formed JSON value.

use vstd::prelude::*;

use rand::Rng;

verus! {

/// The kind of JSON value to generate.
#[derive(Debug, Clone, Copy, PartialEq, Eq, Structural)]
pub enum ValueType {
    /// A double-quoted alphanumeric string.
    String,
    /// A decimal integer.
    Number,
    /// An object of string keys and nested values.
    Object,
    /// An array of nested values.
    Array,
    /// `true` or `false`.
    Bool,
    /// `null`.
    Null,
}

/// rand's small, fast, non-cryptographic generator; opaque here.
#[verifier::external_type_specification]
#[verifier::external_body]
pub struct ExSmallRng(rand::rngs::SmallRng);

/// Relies on rand's `Rng::gen_range` over `0..n`: it panics only on an
/// empty range and returns a value of the range.  Which value comes back
/// depends on the generator's state, so nothing more is promised.
#[verifier::external_body]
fn draw_below(random: &mut rand::rngs::SmallRng, n: usize) -> (r: usize)
    requires
        n >= 1,
    ensures
        r < n,
{
    random.gen_range(0..n)
}

/// Relies on rand's `Standard` distribution for `i32`: any value may come
/// back.
#[verifier::external_body]
fn draw_i32(random: &mut rand::rngs::SmallRng) -> i32 {
    random.gen::<i32>()
}

/// Relies on rand's `Standard` distribution for `bool`: either value may
/// come back.
#[verifier::external_body]
fn draw_bool(random: &mut rand::rngs::SmallRng) -> bool {
    random.gen::<bool>()
}

/// An ASCII alphanumeric byte.
pub open spec fn is_alnum(c: u8) -> bool {
    (0x30 <= c <= 0x39) || (0x41 <= c <= 0x5a) || (0x61 <= c <= 0x7a)
}

/// A run of ASCII alphanumeric bytes.
pub open spec fn alnum_seq(s: Seq<u8>) -> bool {
    forall|i: int| 0 <= i < s.len() ==> is_alnum(#[trigger] s[i])
}

/// Relies on rand's `Alphanumeric` distribution: every sample is an ASCII
/// alphanumeric byte (a digit or letter).
#[verifier::external_body]
fn draw_alnum(random: &mut rand::rngs::SmallRng, len: usize) -> (r: Vec<u8>)
    ensures
        r@.len() == len,
        alnum_seq(r@),
{
    (&mut *random).sample_iter(rand::distributions::Alphanumeric).take(len).collect()
}

/// An object member: a key and its value.
pub ghost struct Member {
    /// The key's content bytes (between its quotes).
    pub key: Seq<u8>,
    /// The member's value.
    pub value: JsonValue,
}

/// A mathematical JSON value, as this generator shapes them.
pub ghost enum JsonValue {
    /// A string; the bytes are the content between the quotes.
    Str(Seq<u8>),
    /// A number; the bytes are its decimal spelling.
    Num(Seq<u8>),
    /// A boolean.
    Bool(bool),
    /// The null value.
    Null,
    /// An array of values.
    Arr(Seq<JsonValue>),
    /// An object of members, in order.
    Obj(Seq<Member>),
}

/// The decimal digit character for one digit value.
pub open spec fn digit_byte(d: int) -> u8 {
    (0x30 + d) as u8
}

/// The decimal spelling of a non-negative integer, most significant digit
/// first.
pub open spec fn dec_rep(m: nat) -> Seq<u8>
    decreases m,
{
    if m < 10 {
        seq![digit_byte(m as int)]
    } else {
        dec_rep(m / 10) + seq![digit_byte((m % 10) as int)]
    }
}

/// The decimal spelling of an integer, with a leading minus sign when
/// negative.
pub open spec fn spec_i32_dec(n: int) -> Seq<u8> {
    if n < 0 {
        seq![0x2du8] + dec_rep((-n) as nat)
    } else {
        dec_rep(n as nat)
    }
}

/// Well-formedness of a JSON value: string contents and keys are
/// alphanumeric (so they need no escaping), and numbers are decimal
/// spellings of 32-bit integers.
pub open spec fn json_wf(v: JsonValue) -> bool
    decreases v, 0int,
{
    match v {
        JsonValue::Str(s) => alnum_seq(s),
        JsonValue::Num(s) => exists|n: int|
            i32::MIN <= n <= i32::MAX && s == #[trigger] spec_i32_dec(n),
        JsonValue::Bool(_) => true,
        JsonValue::Null => true,
        JsonValue::Arr(items) => items_wf(items, items.len() as int),
        JsonValue::Obj(members) => members_wf(members, members.len() as int),
    }
}

/// Well-formedness of the first `n` items of an array.
pub open spec fn items_wf(items: Seq<JsonValue>, n: int) -> bool
    decreases items, n,
{
    if n <= 0 || n > items.len() {
        true
    } else {
        items_wf(items, n - 1) && json_wf(items[n - 1])
    }
}

/// Well-formedness of the first `n` members of an object.
pub open spec fn members_wf(members: Seq<Member>, n: int) -> bool
    decreases members, n,
{
    if n <= 0 || n > members.len() {
        true
    } else {
        members_wf(members, n - 1) && alnum_seq(members[n - 1].key) && member_value_wf(
            members[n - 1],
        )
    }
}

/// Well-formedness of one member's value.
pub open spec fn member_value_wf(m: Member) -> bool
    decreases m, 0int,
{
    json_wf(m.value)
}

/// The serialization of a JSON value.
pub open spec fn json_ser(v: JsonValue) -> Seq<u8>
    decreases v, 0int,
{
    match v {
        JsonValue::Str(s) => seq![0x22u8] + s + seq![0x22u8],
        JsonValue::Num(s) => s,
        JsonValue::Bool(b) => if b {
            seq![0x74u8, 0x72, 0x75, 0x65]
        } else {
            seq![0x66u8, 0x61, 0x6c, 0x73, 0x65]
        },
        JsonValue::Null => seq![0x6eu8, 0x75, 0x6c, 0x6c],
        JsonValue::Arr(items) => seq![0x5bu8] + items_ser(items, items.len() as int) + seq![
            0x5du8,
        ],
        JsonValue::Obj(members) => seq![0x7bu8] + members_ser(members, members.len() as int)
            + seq![0x7du8],
    }
}

/// The serialization of the first `n` items of an array, joined by `", "`.
pub open spec fn items_ser(items: Seq<JsonValue>, n: int) -> Seq<u8>
    decreases items, n,
{
    if n <= 0 || n > items.len() {
        Seq::empty()
    } else if n == 1 {
        json_ser(items[0])
    } else {
        items_ser(items, n - 1) + seq![0x2cu8, 0x20] + json_ser(items[n - 1])
    }
}

/// The serialization of the first `n` members of an object, joined by `","`.
pub open spec fn members_ser(members: Seq<Member>, n: int) -> Seq<u8>
    decreases members, n,
{
    if n <= 0 || n > members.len() {
        Seq::empty()
    } else if n == 1 {
        member_ser(members[0])
    } else {
        members_ser(members, n - 1) + seq![0x2cu8] + member_ser(members[n - 1])
    }
}

/// The serialization of one member: quoted key, colon, value.
pub open spec fn member_ser(m: Member) -> Seq<u8>
    decreases m, 0int,
{
    seq![0x22u8] + m.key + seq![0x22u8, 0x3a] + json_ser(m.value)
}

/// Whether a value nests no deeper than `d` container levels.
pub open spec fn json_bounded(v: JsonValue, d: int) -> bool
    decreases v, 0int,
{
    match v {
        JsonValue::Arr(items) => d >= 1 && items_bounded(items, items.len() as int, d - 1),
        JsonValue::Obj(members) => d >= 1 && members_bounded(members, members.len() as int, d - 1),
        _ => true,
    }
}

/// Whether the first `n` items of an array nest no deeper than `d`.
pub open spec fn items_bounded(items: Seq<JsonValue>, n: int, d: int) -> bool
    decreases items, n,
{
    if n <= 0 || n > items.len() {
        true
    } else {
        items_bounded(items, n - 1, d) && json_bounded(items[n - 1], d)
    }
}

/// Whether the first `n` members of an object have values nesting no deeper
/// than `d`.
pub open spec fn members_bounded(members: Seq<Member>, n: int, d: int) -> bool
    decreases members, n,
{
    if n <= 0 || n > members.len() {
        true
    } else {
        members_bounded(members, n - 1, d) && member_value_bounded(members[n - 1], d)
    }
}

/// Whether one member's value nests no deeper than `d`.
pub open spec fn member_value_bounded(m: Member, d: int) -> bool
    decreases m, 0int,
{
    json_bounded(m.value, d)
}

/// The kind of a JSON value.
pub open spec fn json_kind(v: JsonValue) -> ValueType {
    match v {
        JsonValue::Str(_) => ValueType::String,
        JsonValue::Num(_) => ValueType::Number,
        JsonValue::Bool(_) => ValueType::Bool,
        JsonValue::Null => ValueType::Null,
        JsonValue::Arr(_) => ValueType::Array,
        JsonValue::Obj(_) => ValueType::Object,
    }
}

/// What the generated text promises: it is the serialization of some
/// well-formed JSON value of the requested kind, nesting no deeper than the
/// depth bound.
pub open spec fn generates(r: Seq<u8>, value_type: ValueType, depth: int) -> bool {
    exists|v: JsonValue|
        json_wf(v) && json_kind(v) == value_type && json_bounded(v, depth) && #[trigger] json_ser(
            v,
        ) == r
}

/// The lengths a call must leave room for, so that no random range below is
/// empty: strings need at least one possible length (two at positive depth,
/// where they cannot be empty), and containers need a possible size.
pub open spec fn length_ok(length: int, depth: int, value_type: ValueType) -> bool {
    match value_type {
        ValueType::String => length >= if depth == 0 {
            1int
        } else {
            2int
        },
        ValueType::Object | ValueType::Array => length >= 1 && depth >= 1,
        _ => true,
    }
}

/// Appending an item does not change the serialization of the ones before
/// it.
proof fn lemma_items_push(items: Seq<JsonValue>, x: JsonValue, n: int)
    requires
        0 <= n <= items.len(),
    ensures
        items_ser(items.push(x), n) == items_ser(items, n),
        items_wf(items, n) == items_wf(items.push(x), n),
        forall|d: int| items_bounded(items, n, d) == items_bounded(items.push(x), n, d),
    decreases n,
{
    if n > 0 {
        lemma_items_push(items, x, n - 1);
        assert(items.push(x)[n - 1] == items[n - 1]);
        assert forall|d: int|
            items_bounded(items, n, d) == items_bounded(items.push(x), n, d) by {
            assert(items_bounded(items, n - 1, d) == items_bounded(items.push(x), n - 1, d));
        }
    }
}

/// Appending a member does not change the serialization of the ones before
/// it.
proof fn lemma_members_push(members: Seq<Member>, x: Member, n: int)
    requires
        0 <= n <= members.len(),
    ensures
        members_ser(members.push(x), n) == members_ser(members, n),
        members_wf(members, n) == members_wf(members.push(x), n),
        forall|d: int| members_bounded(members, n, d) == members_bounded(members.push(x), n, d),
    decreases n,
{
    if n > 0 {
        lemma_members_push(members, x, n - 1);
        assert(members.push(x)[n - 1] == members[n - 1]);
        assert forall|d: int|
            members_bounded(members, n, d) == members_bounded(members.push(x), n, d) by {
            assert(members_bounded(members, n - 1, d) == members_bounded(members.push(x), n - 1, d));
        }
    }
}

/// A random double-quoted alphanumeric string: its full text and its
/// content.
fn quoted_string(length: usize, allow_empty: bool, random: &mut rand::rngs::SmallRng) -> (r: (
    Vec<u8>,
    Ghost<Seq<u8>>,
))
    requires
        length >= if allow_empty {
            1int
        } else {
            2int
        },
    ensures
        alnum_seq(r.1@),
        r.0@ == json_ser(JsonValue::Str(r.1@)),
{
    let len = if allow_empty {
        draw_below(random, length)
    } else {
        1 + draw_below(random, length - 1)
    };
    let mut content = draw_alnum(random, len);
    let ghost c = content@;
    let mut out: Vec<u8> = Vec::new();
    out.push(0x22);
    out.append(&mut content);
    out.push(0x22);
    proof {
        assert(out@ =~= json_ser(JsonValue::Str(c)));
    }
    (out, Ghost(c))
}

/// A kind the generated value may have at this depth: at depth zero only
/// leaves are drawn, so the nesting bound holds.
fn generate_type(depth: usize, random: &mut rand::rngs::SmallRng) -> (t: ValueType)
    ensures
        depth == 0 ==> !(t is Object) && !(t is Array),
{
    if depth == 0 {
        let i = draw_below(random, 4);
        match i {
            0 => ValueType::String,
            1 => ValueType::Number,
            2 => ValueType::Bool,
            _ => ValueType::Null,
        }
    } else {
        let i = draw_below(random, 6);
        match i {
            0 => ValueType::String,
            1 => ValueType::Number,
            2 => ValueType::Object,
            3 => ValueType::Array,
            4 => ValueType::Bool,
            _ => ValueType::Null,
        }
    }
}

/// A random JSON value of a random kind allowed at this depth.
fn generate_value(length: usize, depth: usize, random: &mut rand::rngs::SmallRng) -> (r: Vec<u8>)
    requires
        length >= if depth == 0 {
            1int
        } else {
            2int
        },
    ensures
        exists|v: JsonValue|
            json_wf(v) && json_bounded(v, depth as int) && #[trigger] json_ser(v) == r@,
    decreases depth, 2int,
{
    let value_type = generate_type(depth, random);
    generate(length, depth, value_type, random)
}

/// Generates the text of a random JSON value of the requested kind.
///
/// `length` bounds string lengths and container sizes; `depth` bounds
/// nesting.  The result is the serialization of a well-formed JSON value of
/// that kind, whatever the generator draws.
pub fn generate(
    length: usize,
    depth: usize,
    value_type: ValueType,
    random: &mut rand::rngs::SmallRng,
) -> (r: Vec<u8>)
    requires
        length_ok(length as int, depth as int, value_type),
    ensures
        generates(r@, value_type, depth as int),
    decreases depth, 1int,
{
    match value_type {
        ValueType::String => {
            let (out, content) = quoted_string(length, depth == 0, random);
            proof {
                let w = JsonValue::Str(content@);
                assert(json_wf(w) && json_kind(w) == value_type && json_bounded(w, depth as int)
                    && json_ser(w) == out@);
            }
            out
        },
        ValueType::Number => {
            let n = draw_i32(random);
            let out = format_i32(n);
            proof {
                let w = JsonValue::Num(out@);
                assert(json_wf(w)) by {
                    assert(i32::MIN <= n as int <= i32::MAX && out@ == spec_i32_dec(n as int));
                }
                assert(json_kind(w) == value_type && json_bounded(w, depth as int) && json_ser(w)
                    == out@);
            }
            out
        },
        ValueType::Bool => {
            let b = draw_bool(random);
            let out: Vec<u8> = if b {
                vec![0x74, 0x72, 0x75, 0x65]
            } else {
                vec![0x66, 0x61, 0x6c, 0x73, 0x65]
            };
            proof {
                let w = JsonValue::Bool(b);
                assert(json_ser(w) =~= out@);
                assert(json_wf(w) && json_kind(w) == value_type && json_bounded(w, depth as int));
            }
            out
        },
        ValueType::Null => {
            let out: Vec<u8> = vec![0x6e, 0x75, 0x6c, 0x6c];
            proof {
                let w = JsonValue::Null;
                assert(json_ser(w) =~= out@);
                assert(json_wf(w) && json_kind(w) == value_type && json_bounded(w, depth as int));
            }
            out
        },
        ValueType::Object => {
            let len = draw_below(random, length);
            let mut out: Vec<u8> = Vec::new();
            out.push(0x7b);
            let ghost mut members: Seq<Member> = Seq::empty();
            let mut k: usize = 0;
            while k < len
                invariant
                    k <= len,
                    len < length,
                    depth >= 1,
                    members.len() == k as int,
                    members_wf(members, k as int),
                    members_bounded(members, k as int, depth - 1),
                    out@ == seq![0x7bu8] + members_ser(members, k as int),
                decreases len - k,
            {
                let (key, gkey) = quoted_string(length, false, random);
                let val = generate_value(length, depth - 1, random);
                let ghost w = choose|v: JsonValue|
                    json_wf(v) && json_bounded(v, depth - 1) && #[trigger] json_ser(v) == val@;
                let ghost m = Member { key: gkey@, value: w };
                let ghost before = out@;
                if k > 0 {
                    out.push(0x2c);
                }
                let mut key = key;
                out.append(&mut key);
                out.push(0x3a);
                let mut val = val;
                out.append(&mut val);
                proof {
                    lemma_members_push(members, m, k as int);
                    members = members.push(m);
                    assert(members[k as int] == m);
                    assert(member_value_wf(m)) by {
                        assert(json_wf(w));
                    }
                    assert(member_value_bounded(m, depth - 1)) by {
                        assert(json_bounded(w, depth - 1));
                    }
                    assert(members_wf(members, k + 1));
                    assert(members_bounded(members, k + 1, depth - 1));
                    assert(member_ser(m) =~= json_ser(JsonValue::Str(m.key)) + seq![0x3au8]
                        + json_ser(m.value));
                    if k > 0 {
                        assert(out@ =~= before + seq![0x2cu8] + member_ser(m));
                        assert(out@ =~= seq![0x7bu8] + (members_ser(members, k as int) + seq![
                            0x2cu8,
                        ] + member_ser(m)));
                    } else {
                        assert(out@ =~= before + member_ser(m));
                        assert(out@ =~= seq![0x7bu8] + member_ser(m));
                    }
                    assert(members_ser(members, k + 1) == out@.skip(1));
                    assert(out@ =~= seq![0x7bu8] + members_ser(members, k + 1));
                }
                k = k + 1;
            }
            out.push(0x7d);
            proof {
                let w = JsonValue::Obj(members);
                assert(json_ser(w) =~= out@);
                assert(json_wf(w) && json_kind(w) == value_type && json_bounded(w, depth as int));
            }
            out
        },
        ValueType::Array => {
            let len = draw_below(random, length);
            let mut out: Vec<u8> = Vec::new();
            out.push(0x5b);
            let ghost mut items: Seq<JsonValue> = Seq::empty();
            let mut k: usize = 0;
            while k < len
                invariant
                    k <= len,
                    len < length,
                    depth >= 1,
                    items.len() == k as int,
                    items_wf(items, k as int),
                    items_bounded(items, k as int, depth - 1),
                    out@ == seq![0x5bu8] + items_ser(items, k as int),
                decreases len - k,
            {
                let val = generate_value(length, depth - 1, random);
                let ghost w = choose|v: JsonValue|
                    json_wf(v) && json_bounded(v, depth - 1) && #[trigger] json_ser(v) == val@;
                let ghost before = out@;
                if k > 0 {
                    out.push(0x2c);
                    out.push(0x20);
                }
                let mut val = val;
                out.append(&mut val);
                proof {
                    lemma_items_push(items, w, k as int);
                    items = items.push(w);
                    assert(items[k as int] == w);
                    assert(items_wf(items, k + 1));
                    assert(items_bounded(items, k + 1, depth - 1));
                    if k > 0 {
                        assert(out@ =~= before + seq![0x2cu8, 0x20] + json_ser(w));
                        assert(out@ =~= seq![0x5bu8] + (items_ser(items, k as int) + seq![
                            0x2cu8,
                            0x20,
                        ] + json_ser(w)));
                    } else {
                        assert(out@ =~= before + json_ser(w));
                        assert(out@ =~= seq![0x5bu8] + json_ser(w));
                    }
                    assert(items_ser(items, k + 1) == out@.skip(1));
                    assert(out@ =~= seq![0x5bu8] + items_ser(items, k + 1));
                }
                k = k + 1;
            }
            out.push(0x5d);
            proof {
                let w = JsonValue::Arr(items);
                assert(json_ser(w) =~= out@);
                assert(json_wf(w) && json_kind(w) == value_type && json_bounded(w, depth as int));
            }
            out
        },
    }
}

/// The decimal spelling of a 32-bit integer.
fn format_i32(n: i32) -> (r: Vec<u8>)
    ensures
        r@ == spec_i32_dec(n as int),
{
    let neg = n < 0;
    let wide: i64 = n as i64;
    let mut m: u64 = if neg {
        (-wide) as u64
    } else {
        wide as u64
    };
    let ghost m0 = m as nat;
    let mut digits: Vec<u8> = Vec::new();
    proof {
        assert(Seq::<u8>::empty() + dec_rep(m0) =~= dec_rep(m0));
    }
    while m >= 10
        invariant
            dec_rep(m0) == dec_rep(m as nat) + digits@.reverse(),
        decreases m,
    {
        let ghost mold = m as nat;
        let ghost before = digits@;
        let d = m % 10;
        digits.push(0x30 + (d as u8));
        m = m / 10;
        proof {
            assert(dec_rep(mold) == dec_rep(mold / 10) + seq![digit_byte((mold % 10) as int)]);
            assert(m as nat == mold / 10 && d as nat == mold % 10);
            assert(digits@.reverse() =~= seq![digit_byte(d as int)] + before.reverse());
            assert(dec_rep(m as nat) + seq![digit_byte(d as int)] + before.reverse() =~= dec_rep(
                m as nat,
            ) + (seq![digit_byte(d as int)] + before.reverse()));
        }
    }
    let ghost before = digits@;
    digits.push(0x30 + (m as u8));
    proof {
        assert(dec_rep(m as nat) == seq![digit_byte(m as int)]);
        assert(digits@.reverse() =~= dec_rep(m as nat) + before.reverse());
        assert(dec_rep(m0) =~= digits@.reverse());
    }
    let mut r: Vec<u8> = Vec::new();
    if neg {
        r.push(0x2d);
    }
    let ghost sign: Seq<u8> = if neg {
        seq![0x2du8]
    } else {
        Seq::empty()
    };
    let mut i: usize = digits.len();
    while i > 0
        invariant
            i <= digits@.len(),
            r@ == sign + digits@.reverse().take(digits@.len() - i),
        decreases i,
    {
        i = i - 1;
        r.push(digits[i]);
        proof {
            assert(digits@.reverse()[digits@.len() - i - 1] == digits@[i as int]);
            assert(r@ =~= sign + digits@.reverse().take(digits@.len() - i));
        }
    }
    proof {
        assert(digits@.reverse().take(digits@.len() as int) =~= digits@.reverse());
        assert(r@ =~= spec_i32_dec(n as int));
    }
    r
}

} // verus!
