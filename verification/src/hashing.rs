use crate::text::{digit_char, digit_of, push_char};
use crate::value::{strip_nulls, without_nulls, Fields, FieldsModel, Value, ValueModel};
use crate::views::{lemma_take_all, lemma_take_step};
use vstd::prelude::*;

verus! {

/// The JSON string literal for a text: the text between double quotes, with
/// the escapes that JSON asks for.
pub uninterp spec fn json_string_text(s: Seq<char>) -> Seq<char>;

/// The 64-bit XXH3 hash of the UTF-8 bytes of a text, with seed 0 and the
/// default secret.
pub uninterp spec fn xxh3_64_value(text: Seq<char>) -> u64;

/// `serde_json::to_string` on a string slice: the JSON string literal for
/// it. Writing a string into memory cannot fail.
#[verifier::external_body]
pub(crate) fn json_string(s: &str) -> (r: String)
    ensures
        r@ == json_string_text(s@),
{
    serde_json::to_string(s).unwrap_or_default()
}

/// `xxhash_rust::xxh3::xxh3_64` on the bytes of a text.
#[verifier::external_body]
fn xxh3_of(text: &str) -> (h: u64)
    ensures
        h == xxh3_64_value(text@),
{
    xxhash_rust::xxh3::xxh3_64(text.as_bytes())
}

/// The JSON text of a value.
pub open spec fn value_json(v: ValueModel) -> Seq<char> {
    match v {
        ValueModel::Null => "null"@,
        ValueModel::Bool(b) => if b {
            "true"@
        } else {
            "false"@
        },
        ValueModel::Number(t) => t,
        ValueModel::Text(t) => json_string_text(t),
    }
}

/// The JSON text of one member of an object.
pub open spec fn member_json(e: (Seq<char>, ValueModel)) -> Seq<char> {
    json_string_text(e.0) + ":"@ + value_json(e.1)
}

/// The members of an object, with commas between them.
pub open spec fn members_json(m: FieldsModel) -> Seq<char>
    decreases m.len(),
{
    if m.len() == 0 {
        Seq::empty()
    } else if m.len() == 1 {
        member_json(m[0])
    } else {
        members_json(m.drop_last()) + ","@ + member_json(m.last())
    }
}

/// The compact JSON text of an object with these members.
pub open spec fn object_json(m: FieldsModel) -> Seq<char> {
    "{"@ + members_json(m) + "}"@
}

/// The digit of `h` at position `i` of its sixteen hexadecimal digits,
/// counted from the left.
pub open spec fn hex_digit_at(h: u64, i: int) -> char {
    digit_of((h >> ((60 - 4 * i) as u64)) & 0xf)
}

/// `h` as sixteen hexadecimal digits in lower case.
pub open spec fn hex16(h: u64) -> Seq<char> {
    Seq::new(16, |i: int| hex_digit_at(h, i))
}

/// The hash by which two payloads count as equal in content: the XXH3 hash
/// of the JSON text of the payload without its NULLs.
pub open spec fn content_hash_of(m: FieldsModel) -> Seq<char> {
    hex16(xxh3_64_value(object_json(without_nulls(m))))
}

/// Writes `h` as sixteen hexadecimal digits in lower case.
pub fn hex16_text(h: u64) -> (out: String)
    ensures
        out@ == hex16(h),
{
    let mut out = String::new();
    let mut i: u64 = 0;
    while i < 16
        invariant
            i <= 16,
            out@.len() == i,
            forall|j: int| 0 <= j < i ==> out@[j] == hex_digit_at(h, j),
        decreases 16 - i,
    {
        let shift: u64 = 60 - 4 * i;
        let nibble: u64 = (h >> shift) & 0xf;
        assert(nibble < 16) by (bit_vector)
            requires
                nibble == (h >> shift) & 0xf,
        ;
        push_char(&mut out, digit_char(nibble));
        i += 1;
    }
    assert(out@ =~= hex16(h));
    out
}

/// The JSON text of a value.
fn value_json_text(v: &Value) -> (out: String)
    ensures
        out@ == value_json(v.deep_view()),
{
    match v {
        Value::Null => String::from_str("null"),
        Value::Bool(b) => if *b {
            String::from_str("true")
        } else {
            String::from_str("false")
        },
        Value::Number(t) => t.clone(),
        Value::Text(t) => json_string(t.as_str()),
    }
}

/// The compact JSON text of the object that holds these fields.
pub fn object_text(fields: &Fields) -> (out: String)
    ensures
        out@ == object_json(fields.deep_view()),
{
    let ghost m = fields.deep_view();
    let mut out = String::from_str("{");
    let ghost mut body: Seq<char> = Seq::empty();
    let mut i: usize = 0;
    assert(out@ =~= "{"@ + body);
    while i < fields.len()
        invariant
            i <= m.len(),
            m == fields.deep_view(),
            body == members_json(m.take(i as int)),
            out@ == "{"@ + body,
        decreases m.len() - i,
    {
        proof {
            lemma_take_step(m, i as int);
        }
        let ghost prev = body;
        if i > 0 {
            out.append(",");
        }
        let key = json_string(fields.key_at(i).as_str());
        out.append(key.as_str());
        out.append(":");
        let val = value_json_text(fields.value_at(i));
        out.append(val.as_str());
        proof {
            let e = m[i as int];
            if i > 0 {
                body = prev + ","@ + member_json(e);
            } else {
                body = member_json(e);
                assert(prev =~= Seq::empty());
            }
            assert(out@ =~= "{"@ + body);
            assert(body =~= members_json(m.take(i + 1)));
        }
        i += 1;
    }
    proof {
        lemma_take_all(m);
    }
    out.append("}");
    out
}

/// The XXH3 hash of a text, as sixteen hexadecimal digits.
pub fn hash_text(text: &str) -> (out: String)
    ensures
        out@ == hex16(xxh3_64_value(text@)),
{
    hex16_text(xxh3_of(text))
}

/// The hash by which two payloads count as equal in content.
pub fn content_hash(payload: &Fields) -> (out: String)
    ensures
        out@ == content_hash_of(payload.deep_view()),
{
    let stripped = strip_nulls(payload);
    let text = object_text(&stripped);
    hash_text(text.as_str())
}

} // verus!
