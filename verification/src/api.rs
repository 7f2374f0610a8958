//! How requests from outside are read, and how errors are answered.

use vstd::prelude::*;

use crate::collection::IndexKind;
use crate::error::{Error, Invalid};
use crate::id::{ExternalId, IdView};
use crate::json::{Json, JsonView, Num};
use crate::kernel::Metric;
use crate::text::{
    decimal, digits_value, is_digit, law_decimal_round_trip, number_in, read_digits,
};

verus! {

/// A letter in lower case; other characters stay as they are. Only the letters from A to Z
/// have a lower case here.
pub open spec fn lower(c: char) -> char {
    if 'A' <= c && c <= 'Z' {
        (c as u32 + 32) as char
    } else {
        c
    }
}

/// A text in lower case.
pub open spec fn lowered(s: Seq<char>) -> Seq<char> {
    Seq::new(s.len(), |i: int| lower(s[i]))
}

/// The metric of a name, whatever its case.
pub open spec fn metric_named(s: Seq<char>) -> Option<Metric> {
    if lowered(s) == "l2"@ {
        Some(Metric::L2)
    } else if lowered(s) == "cosine"@ {
        Some(Metric::Cosine)
    } else if lowered(s) == "dot"@ {
        Some(Metric::Dot)
    } else {
        None
    }
}

/// Whether a character is a letter, in lower or upper case.
fn is_letter(c: char, small: char, large: char) -> (r: bool)
    requires
        lower(large) == small,
        lower(small) == small,
        forall|d: char| #[trigger] lower(d) == small ==> d == small || d == large,
    ensures
        r == (lower(c) == small),
{
    c == small || c == large
}

/// Whether a text says a word, whatever its case. `large` is the word in upper case.
fn says(s: &str, word: &str, large: &str) -> (r: bool)
    requires
        word@.len() == large@.len(),
        forall|i: int| 0 <= i < word@.len() ==> pairs(#[trigger] word@[i], large@[i]),
    ensures
        r == (lowered(s@) == word@),
{
    let len: usize = s.unicode_len();
    if len != word.unicode_len() {
        assert(lowered(s@).len() != word@.len());
        return false;
    }
    let mut i: usize = 0;
    while i < len
        invariant
            i <= len,
            len == s@.len(),
            len == word@.len(),
            word@.len() == large@.len(),
            forall|k: int| 0 <= k < word@.len() ==> pairs(#[trigger] word@[k], large@[k]),
            forall|k: int| 0 <= k < i ==> lower(#[trigger] s@[k]) == word@[k],
        decreases len - i,
    {
        assert(pairs(word@[i as int], large@[i as int]));
        if !is_letter(s.get_char(i), word.get_char(i), large.get_char(i)) {
            assert(lowered(s@)[i as int] != word@[i as int]);
            return false;
        }
        i = i + 1;
    }
    assert(lowered(s@) =~= word@);
    true
}

/// Whether two characters are one letter in both cases, or the same otherwise.
spec fn pairs(small: char, large: char) -> bool {
    &&& lower(large) == small
    &&& lower(small) == small
    &&& forall|d: char| #[trigger] lower(d) == small ==> d == small || d == large
}

/// The metric of a name, whatever its case.
pub fn parse_metric(s: &str) -> (r: Result<Metric, Error>)
    ensures
        match r {
            Ok(m) => metric_named(s@) == Some(m),
            Err(e) => metric_named(s@) is None && (e matches Error::Invalid(
                Invalid::UnknownMetric(name),
            ) && name@ == s@),
        },
{
    proof {
        reveal_strlit("l2");
        reveal_strlit("L2");
        reveal_strlit("cosine");
        reveal_strlit("COSINE");
        reveal_strlit("dot");
        reveal_strlit("DOT");
    }
    if says(s, "l2", "L2") {
        Ok(Metric::L2)
    } else if says(s, "cosine", "COSINE") {
        assert("l2"@.len() != "cosine"@.len());
        Ok(Metric::Cosine)
    } else if says(s, "dot", "DOT") {
        assert("l2"@.len() != "dot"@.len());
        assert("cosine"@.len() != "dot"@.len());
        Ok(Metric::Dot)
    } else {
        Err(Error::Invalid(Invalid::UnknownMetric(s.to_owned())))
    }
}

/// The name of a metric.
pub fn metric_name(m: Metric) -> (r: &'static str)
    ensures
        r@ == (match m {
            Metric::L2 => "l2"@,
            Metric::Cosine => "cosine"@,
            Metric::Dot => "dot"@,
        }),
{
    match m {
        Metric::L2 => "l2",
        Metric::Cosine => "cosine",
        Metric::Dot => "dot",
    }
}

/// Reading the name of a metric gives the metric.
pub proof fn law_metric_names(m: Metric)
    ensures
        metric_named(
            match m {
                Metric::L2 => "l2"@,
                Metric::Cosine => "cosine"@,
                Metric::Dot => "dot"@,
            },
        ) == Some(m),
{
    reveal_strlit("l2");
    reveal_strlit("cosine");
    reveal_strlit("dot");
    assert(lowered("l2"@) =~= "l2"@);
    assert(lowered("cosine"@) =~= "cosine"@);
    assert(lowered("dot"@) =~= "dot"@);
    assert("l2"@.len() != "cosine"@.len());
    assert("l2"@.len() != "dot"@.len());
    assert("cosine"@.len() != "dot"@.len());
}

/// The name of a kind of index.
pub fn index_kind_name(kind: &IndexKind) -> (r: &'static str)
    ensures
        r@ == (match kind {
            IndexKind::Flat => "flat"@,
            IndexKind::Hnsw { .. } => "hnsw"@,
        }),
{
    match kind {
        IndexKind::Flat => "flat",
        IndexKind::Hnsw { .. } => "hnsw",
    }
}

/// The whole number that a text says: decimal digits, after a sign if there is one.
pub open spec fn integer_in(s: Seq<char>) -> Option<i64> {
    let signed = s.len() > 0 && (s[0] == '+' || s[0] == '-');
    let digits = if signed {
        s.skip(1)
    } else {
        s
    };
    if digits.len() == 0 {
        None
    } else {
        match digits_value(digits) {
            None => None,
            Some(n) => if signed && s[0] == '-' {
                if n <= 0x8000_0000_0000_0000 {
                    Some((0 - n) as i64)
                } else {
                    None
                }
            } else if n <= i64::MAX {
                Some(n as i64)
            } else {
                None
            },
        }
    }
}

/// The identifier that a text says: a number if it is one; else the text, without the quotes
/// around it if there are any.
pub open spec fn id_in(s: Seq<char>) -> IdView {
    match integer_in(s) {
        Some(n) => IdView::Num(n),
        None => if s.len() >= 2 && s[0] == '"' && s.last() == '"' {
            IdView::Str(s.subrange(1, s.len() - 1))
        } else {
            IdView::Str(s)
        },
    }
}

fn read_integer(s: &str) -> (r: Option<i64>)
    ensures
        r == integer_in(s@),
{
    let len: usize = s.unicode_len();
    let mut negative: bool = false;
    let mut start: usize = 0;
    if len > 0 {
        let c: char = s.get_char(0);
        if c == '-' {
            negative = true;
            start = 1;
        } else if c == '+' {
            start = 1;
        }
    }
    let digits = s.substring_char(start, len);
    assert(digits@ =~= (if start == 1 {
        s@.skip(1)
    } else {
        s@
    }));
    if start == len {
        return None;
    }
    match read_digits(digits) {
        None => None,
        Some(n) => if negative {
            if n < 0x8000_0000_0000_0000 {
                Some(0 - (n as i64))
            } else if n == 0x8000_0000_0000_0000 {
                Some(i64::MIN)
            } else {
                None
            }
        } else if n <= 0x7FFF_FFFF_FFFF_FFFF {
            Some(n as i64)
        } else {
            None
        },
    }
}

/// The identifier that a text says.
pub fn parse_id(s: &str) -> (r: ExternalId)
    ensures
        r@ == id_in(s@),
{
    match read_integer(s) {
        Some(n) => ExternalId::Num(n),
        None => {
            let len: usize = s.unicode_len();
            if len >= 2 && s.get_char(0) == '"' && s.get_char(len - 1) == '"' {
                ExternalId::Str(s.substring_char(1, len - 1).to_owned())
            } else {
                ExternalId::Str(s.to_owned())
            }
        },
    }
}

/// The identifier that a JSON value is: a whole number that fits, or a text; or what is wrong
/// with it.
pub open spec fn json_id(v: JsonView) -> Result<IdView, Error> {
    match v {
        JsonView::Number(n, _) => match n {
            Num::PosInt(x) => if x <= i64::MAX {
                Ok(IdView::Num(x as i64))
            } else {
                Err(Error::Invalid(Invalid::IdRange))
            },
            Num::NegInt(x) => Ok(IdView::Num(x)),
            Num::Float(_) => Err(Error::Invalid(Invalid::IdRange)),
        },
        JsonView::Str(s) => Ok(IdView::Str(s)),
        _ => Err(Error::Invalid(Invalid::IdType)),
    }
}

/// The identifier that a JSON value is.
pub fn parse_json_id(v: &Json) -> (r: Result<ExternalId, Error>)
    ensures
        match r {
            Ok(id) => json_id(v@) == Ok::<IdView, Error>(id@),
            Err(e) => json_id(v@) == Err::<IdView, Error>(e),
        },
{
    match v {
        Json::Number(n) => match n.value {
            Num::PosInt(x) => if x <= 0x7FFF_FFFF_FFFF_FFFF {
                Ok(ExternalId::Num(x as i64))
            } else {
                Err(Error::Invalid(Invalid::IdRange))
            },
            Num::NegInt(x) => Ok(ExternalId::Num(x)),
            Num::Float(_) => Err(Error::Invalid(Invalid::IdRange)),
        },
        Json::Str(s) => Ok(ExternalId::Str(s.clone())),
        _ => Err(Error::Invalid(Invalid::IdType)),
    }
}

/// The status code with which an error is answered: not found, conflict, bad request, locked,
/// or internal error.
pub open spec fn code_of(e: Error) -> u16 {
    match e {
        Error::CollectionNotFound(_) => 404,
        Error::CollectionExists(_) => 409,
        Error::DimensionMismatch { .. } => 400,
        Error::Invalid(_) => 400,
        Error::WalCorrupt { .. } => 400,
        Error::AlreadyOpen(_) => 423,
        _ => 500,
    }
}

/// The status code with which an error is answered.
pub fn status_code(e: &Error) -> (r: u16)
    ensures
        r == code_of(*e),
{
    match e {
        Error::CollectionNotFound(_) => 404,
        Error::CollectionExists(_) => 409,
        Error::DimensionMismatch { .. } => 400,
        Error::Invalid(_) => 400,
        Error::WalCorrupt { .. } => 400,
        Error::AlreadyOpen(_) => 423,
        _ => 500,
    }
}

/// A text of digits is the number that they say, with a minus sign the negative one; but only if it
/// fits. Any other text is an identifier as it is, or without the quotes around it.
pub proof fn law_identifiers_in_texts(n: nat, s: Seq<char>)
    requires
        n <= u64::MAX,
    ensures
        n <= i64::MAX ==> id_in(decimal(n)) == IdView::Num(n as i64),
        n <= i64::MAX ==> id_in(seq!['+'] + decimal(n)) == IdView::Num(n as i64),
        n <= i64::MAX + 1 ==> id_in(seq!['-'] + decimal(n)) == IdView::Num((0 - n) as i64),
        n > i64::MAX ==> id_in(decimal(n)) == IdView::Str(decimal(n)),
        id_in(seq!['"'] + s + seq!['"']) == IdView::Str(s),
        s.len() > 0 && !is_digit(s[0]) && s[0] != '+' && s[0] != '-' && s[0] != '"' ==> id_in(s)
            == IdView::Str(s),
{
    let d = decimal(n);
    law_decimal_round_trip(n);
    assert(is_digit(d[0]));
    lemma_said(d);
    let plus = seq!['+'] + d;
    let minus = seq!['-'] + d;
    assert(plus.skip(1) =~= d);
    assert(minus.skip(1) =~= d);
    let q = seq!['"'] + s + seq!['"'];
    assert(q[0] == '"' && q.last() == '"');
    lemma_not_said(q, 0);
    assert(q.subrange(1, q.len() - 1) =~= s);
    if s.len() > 0 && !is_digit(s[0]) {
        lemma_not_said(s, 0);
    }
}

/// Digits without a sign say a number.
proof fn lemma_said(s: Seq<char>)
    requires
        s.len() > 0,
        is_digit(s[0]),
    ensures
        number_in(s) == digits_value(s),
{
}

/// A text with something else in it than digits says no number.
proof fn lemma_not_said(s: Seq<char>, i: int)
    requires
        0 <= i < s.len(),
        !is_digit(s[i]),
    ensures
        digits_value(s) is None,
    decreases s.len(),
{
    if i < s.len() - 1 {
        assert(s.drop_last()[i] == s[i]);
        lemma_not_said(s.drop_last(), i);
    }
}

/// JSON numbers that fit are identifiers, and so are texts; nothing else is.
pub proof fn law_identifiers_in_values(x: u64, y: i64, bits: u64, text: Seq<char>, v: JsonView)
    ensures
        x <= i64::MAX ==> json_id(JsonView::Number(Num::PosInt(x), text)) == Ok::<IdView, Error>(
            IdView::Num(x as i64),
        ),
        x > i64::MAX ==> json_id(JsonView::Number(Num::PosInt(x), text)) == Err::<IdView, Error>(
            Error::Invalid(Invalid::IdRange),
        ),
        json_id(JsonView::Number(Num::NegInt(y), text)) == Ok::<IdView, Error>(IdView::Num(y)),
        json_id(JsonView::Number(Num::Float(bits), text)) == Err::<IdView, Error>(
            Error::Invalid(Invalid::IdRange),
        ),
        json_id(JsonView::Str(text)) == Ok::<IdView, Error>(IdView::Str(text)),
        !(v is Number) && !(v is Str) ==> json_id(v) == Err::<IdView, Error>(
            Error::Invalid(Invalid::IdType),
        ),
{
}

/// What is missing is not found, what is there already is a conflict, a database that is open
/// elsewhere is locked, and what cannot be done as asked is a bad request. Only other errors are
/// internal ones.
pub proof fn law_status_codes(e: Error)
    ensures
        code_of(e) == 404 <==> e is CollectionNotFound,
        code_of(e) == 409 <==> e is CollectionExists,
        code_of(e) == 423 <==> e is AlreadyOpen,
        code_of(e) == 400 <==> e is DimensionMismatch || e is Invalid || e is WalCorrupt,
        code_of(e) == 404 || code_of(e) == 409 || code_of(e) == 423 || code_of(e) == 400 || code_of(
            e,
        ) == 500,
{
}

} // verus!
