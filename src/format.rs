//! Human-readable summaries of decoded tree values.

use vstd::prelude::*;
use vstd::string::StringExecFns;

use crate::nbt::NbtTag;
use crate::nbt::NbtValue;

verus! {

/// The character of decimal digit `d`.
pub open spec fn digit_char(d: nat) -> char {
    (48 + d) as char
}

/// The decimal digits of `n`, without leading zeros.
pub open spec fn digits(n: nat) -> Seq<char>
    decreases n,
{
    if n < 10 {
        seq![digit_char(n)]
    } else {
        digits(n / 10) + seq![digit_char(n % 10)]
    }
}

/// `v` in decimal, with a minus sign when negative.
pub open spec fn decimal_text(v: int) -> Seq<char> {
    if v < 0 {
        seq!['-'] + digits((-v) as nat)
    } else {
        digits(v as nat)
    }
}

/// The summary of a value: numbers with their type marker, strings quoted,
/// arrays, lists and compounds by their size. Floating-point values have
/// none here; their text is left to the caller.
pub open spec fn tag_text(v: NbtValue) -> Option<Seq<char>> {
    match v {
        NbtValue::Byte(x) => Some(decimal_text(x as int) + seq!['b']),
        NbtValue::Short(x) => Some(decimal_text(x as int) + seq!['s']),
        NbtValue::Int(x) => Some(decimal_text(x as int)),
        NbtValue::Long(x) => Some(decimal_text(x as int) + seq!['L']),
        NbtValue::Float(_) => None,
        NbtValue::Double(_) => None,
        NbtValue::ByteArray(b) => Some(seq!['['] + decimal_text(b.len() as int) + seq![' ', 'b', 'y', 't', 'e', 's', ']']),
        NbtValue::String(s) => Some(seq!['"'] + s + seq!['"']),
        NbtValue::List(items) => Some(seq!['['] + decimal_text(items.len() as int) + seq![' ', 'i', 't', 'e', 'm', 's', ']']),
        NbtValue::Compound(entries) => Some(seq!['{'] + decimal_text(entries.len() as int) + seq![' ', 't', 'a', 'g', 's', '}']),
        NbtValue::IntArray(v) => Some(seq!['['] + decimal_text(v.len() as int) + seq![' ', 'i', 'n', 't', 's', ']']),
        NbtValue::LongArray(v) => Some(seq!['['] + decimal_text(v.len() as int) + seq![' ', 'l', 'o', 'n', 'g', 's', ']']),
    }
}

/// Relies on the standard `Display` of integers: a minus sign for negative
/// values, then the decimal digits without leading zeros.
#[verifier::external_body]
fn decimal(v: i128) -> (r: String)
    ensures
        r@ == decimal_text(v as int),
{
    v.to_string()
}

/// `prefix`, the decimal text of `n`, then `suffix`.
fn framed_count(prefix: &str, n: usize, suffix: &str) -> (r: String)
    ensures
        r@ == prefix@ + decimal_text(n as int) + suffix@,
{
    let mut s = String::from_str(prefix);
    let d = decimal(n as i128);
    s.append(d.as_str());
    s.append(suffix);
    s
}

/// `v` in decimal followed by `suffix`.
fn marked(v: i128, suffix: &str) -> (r: String)
    ensures
        r@ == decimal_text(v as int) + suffix@,
{
    let mut s = decimal(v);
    s.append(suffix);
    s
}

/// Summarises a value for display; floating-point values give `None`.
pub fn format_nbt_tag(tag: &NbtTag) -> (r: Option<String>)
    ensures
        match r {
            Some(s) => tag_text(tag@) == Some(s@),
            None => tag_text(tag@) is None,
        },
{
    proof {
        reveal_strlit("b");
        reveal_strlit("s");
        reveal_strlit("");
        reveal_strlit("L");
        reveal_strlit("[");
        reveal_strlit(" bytes]");
        reveal_strlit(" items]");
        reveal_strlit("{");
        reveal_strlit(" tags}");
        reveal_strlit(" ints]");
        reveal_strlit(" longs]");
        reveal_strlit("\"");
        assert("b"@ =~= seq!['b']);
        assert("s"@ =~= seq!['s']);
        assert("L"@ =~= seq!['L']);
        assert(""@ =~= Seq::<char>::empty());
        assert("["@ =~= seq!['[']);
        assert("{"@ =~= seq!['{']);
        assert("\""@ =~= seq!['"']);
        assert(" bytes]"@ =~= seq![' ', 'b', 'y', 't', 'e', 's', ']']);
        assert(" items]"@ =~= seq![' ', 'i', 't', 'e', 'm', 's', ']']);
        assert(" tags}"@ =~= seq![' ', 't', 'a', 'g', 's', '}']);
        assert(" ints]"@ =~= seq![' ', 'i', 'n', 't', 's', ']']);
        assert(" longs]"@ =~= seq![' ', 'l', 'o', 'n', 'g', 's', ']']);
    }
    match tag {
        NbtTag::Byte(v) => Some(marked(*v as i128, "b")),
        NbtTag::Short(v) => Some(marked(*v as i128, "s")),
        NbtTag::Int(v) => {
            let s = marked(*v as i128, "");
            proof {
                assert(s@ =~= decimal_text(*v as int));
            }
            Some(s)
        },
        NbtTag::Long(v) => Some(marked(*v as i128, "L")),
        NbtTag::Float(_) => None,
        NbtTag::Double(_) => None,
        NbtTag::ByteArray(v) => Some(framed_count("[", v.len(), " bytes]")),
        NbtTag::String(v) => {
            let mut s = String::from_str("\"");
            s.append(v.as_str());
            s.append("\"");
            Some(s)
        },
        NbtTag::List(v) => Some(framed_count("[", v.len(), " items]")),
        NbtTag::Compound(c) => {
            let s = framed_count("{", c.tags.len(), " tags}");
            proof {
                assert(c@.len() == c.tags.len());
            }
            Some(s)
        },
        NbtTag::IntArray(v) => Some(framed_count("[", v.len(), " ints]")),
        NbtTag::LongArray(v) => Some(framed_count("[", v.len(), " longs]")),
    }
}

} // verus!
