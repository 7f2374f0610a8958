//! JSON values: the payloads of points.

use vstd::prelude::*;
use vstd::utf8::encode_utf8;

use vstd::arithmetic::div_mod::{
    lemma_fundamental_div_mod, lemma_fundamental_div_mod_converse, lemma_mod_bound,
};
use vstd::arithmetic::logarithm::{lemma_log_s, log};
use vstd::arithmetic::power2::{
    lemma2_to64, lemma2_to64_rest, lemma_pow2_adds, lemma_pow2_pos, lemma_pow2_unfold, pow2,
};

use crate::count::plus;
use crate::float::{
    amount, law_wide_patterns_compare_as_numbers, wide_eq, wide_nan, wide_number, wide_same,
    WIDE_SIGN,
};

verus! {

/// A number, as JSON writes it.
#[derive(Debug)]
pub struct Number {
    /// The value.
    pub value: Num,
    /// The text of the number.
    pub text: String,
}

/// The value of a number.
#[derive(Debug, Clone, Copy, PartialEq, Eq, Structural)]
pub enum Num {
    /// A whole number that is not negative.
    PosInt(u64),
    /// A negative whole number.
    NegInt(i64),
    /// Any other number: the pattern of a double-precision one.
    Float(u64),
}

/// A JSON value.
#[derive(Debug)]
pub enum Json {
    /// Nothing.
    Null,
    /// A truth value.
    Bool(bool),
    /// A number.
    Number(Number),
    /// A string.
    Str(String),
    /// A list.
    Array(Vec<Json>),
    /// An object: its fields in order, with distinct names.
    Object(Vec<(String, Json)>),
}

/// What a JSON value is, apart from how it is stored.
pub enum JsonView {
    /// Nothing.
    Null,
    /// A truth value.
    Bool(bool),
    /// A number and its text.
    Number(Num, Seq<char>),
    /// A string.
    Str(Seq<char>),
    /// A list.
    Array(Seq<JsonView>),
    /// An object.
    Object(Seq<(Seq<char>, JsonView)>),
}

impl Json {
    /// What the value is.
    pub open spec fn model(self) -> JsonView
        decreases self,
    {
        match self {
            Json::Null => JsonView::Null,
            Json::Bool(b) => JsonView::Bool(b),
            Json::Number(n) => JsonView::Number(n.value, n.text@),
            Json::Str(s) => JsonView::Str(s@),
            Json::Array(v) => JsonView::Array(
                Seq::new(
                    v@.len(),
                    |i: int|
                        if 0 <= i < v@.len() {
                            v@[i].model()
                        } else {
                            JsonView::Null
                        },
                ),
            ),
            Json::Object(v) => JsonView::Object(
                Seq::new(
                    v@.len(),
                    |i: int|
                        if 0 <= i < v@.len() {
                            (v@[i].0@, v@[i].1.model())
                        } else {
                            (Seq::empty(), JsonView::Null)
                        },
                ),
            ),
        }
    }
}

impl View for Json {
    type V = JsonView;

    open spec fn view(&self) -> JsonView {
        self.model()
    }
}

/// Whether two numbers are equal: the same whole number, or the same
/// double-precision one.
pub open spec fn num_same(a: Num, b: Num) -> bool {
    match (a, b) {
        (Num::PosInt(x), Num::PosInt(y)) => x == y,
        (Num::NegInt(x), Num::NegInt(y)) => x == y,
        (Num::Float(x), Num::Float(y)) => wide_same(x, y),
        _ => false,
    }
}

/// The double-precision number nearest to a whole number, the even one of two that
/// are equally near. Up to 2^53 every whole number has a double of its own; above,
/// the doubles around `n` lie `2^(e-52)` apart, where `e` is the position of the
/// highest bit of `n`.
pub open spec fn nearest_double(n: u64) -> u64 {
    if n == 0 {
        0
    } else {
        let e = log(2, n as int);
        if e <= 52 {
            ((e + 1022) * 0x10_0000_0000_0000 + n * pow2((52 - e) as nat)) as u64
        } else {
            let gap = pow2((e - 52) as nat) as int;
            let q = n as int / gap;
            let r = n as int % gap;
            let up: int = if 2 * r > gap || (2 * r == gap && q % 2 == 1) {
                1
            } else {
                0
            };
            ((e + 1022) * 0x10_0000_0000_0000 + q + up) as u64
        }
    }
}

/// A number as a double-precision one.
pub open spec fn double_of(n: Num) -> u64 {
    match n {
        Num::PosInt(x) => nearest_double(x),
        Num::NegInt(x) => if x < 0 {
            (WIDE_SIGN + nearest_double((-x) as u64)) as u64
        } else {
            nearest_double(x as u64)
        },
        Num::Float(x) => x,
    }
}

/// The value of a field of an object; none if there is no such field.
pub open spec fn field_of(v: JsonView, name: Seq<char>) -> Option<JsonView> {
    match v {
        JsonView::Object(fields) => first_field(fields, name),
        _ => None,
    }
}

/// The first of some fields that has the given name.
pub open spec fn first_field(fields: Seq<(Seq<char>, JsonView)>, name: Seq<char>) -> Option<
    JsonView,
>
    decreases fields.len(),
{
    if fields.len() == 0 {
        None
    } else if fields[0].0 == name {
        Some(fields[0].1)
    } else {
        first_field(fields.drop_first(), name)
    }
}

/// Whether two values are equal. Lists are equal item by item. Objects are equal
/// when they have as many fields, and each field of the one is in the other with an
/// equal value.
pub open spec fn same(a: JsonView, b: JsonView) -> bool
    decreases a,
{
    match (a, b) {
        (JsonView::Null, JsonView::Null) => true,
        (JsonView::Bool(x), JsonView::Bool(y)) => x == y,
        (JsonView::Number(x, _), JsonView::Number(y, _)) => num_same(x, y),
        (JsonView::Str(x), JsonView::Str(y)) => x == y,
        (JsonView::Array(x), JsonView::Array(y)) => x.len() == y.len() && forall|i: int|
            0 <= i < x.len() ==> same(#[trigger] x[i], y[i]),
        (JsonView::Object(x), JsonView::Object(y)) => x.len() == y.len() && forall|i: int|
            0 <= i < x.len() ==> match first_field(y, (#[trigger] x[i]).0) {
                Some(w) => same(x[i].1, w),
                None => false,
            },
        _ => false,
    }
}

/// The length of the compact text of a value, in bytes.
pub open spec fn text_len_of(v: JsonView) -> nat
    decreases v,
{
    match v {
        JsonView::Null => 4,
        JsonView::Bool(b) => if b {
            4
        } else {
            5
        },
        JsonView::Number(_, text) => vstd::utf8::encode_utf8(text).len(),
        JsonView::Str(s) => vstd::utf8::encode_utf8(quoted(s)).len(),
        JsonView::Array(items) => 2 + separators(items.len()) + items_len(items),
        JsonView::Object(fields) => 2 + separators(fields.len()) + fields_len(fields),
    }
}

/// How many commas stand between `n` items.
pub open spec fn separators(n: nat) -> nat {
    if n == 0 {
        0
    } else {
        (n - 1) as nat
    }
}

/// The lengths of the texts of some values, added up.
pub open spec fn items_len(items: Seq<JsonView>) -> nat
    decreases items,
{
    if items.len() == 0 {
        0
    } else {
        items_len(items.drop_last()) + text_len_of(items.last())
    }
}

/// The lengths of the texts of some fields, with a colon each, added up.
pub open spec fn fields_len(fields: Seq<(Seq<char>, JsonView)>) -> nat
    decreases fields,
{
    if fields.len() == 0 {
        0
    } else {
        fields_len(fields.drop_last()) + vstd::utf8::encode_utf8(
            quoted(fields.last().0),
        ).len() + 1 + text_len_of(fields.last().1)
    }
}

/// The length of a string in bytes, modulo 2^64.
fn wrap_len(s: &str) -> (r: u64)
    ensures
        r == vstd::utf8::encode_utf8(s@).len() % 0x1_0000_0000_0000_0000,
{
    s.as_bytes().len() as u64
}

/// The hexadecimal digit of a number below 16.
pub open spec fn hex_digit(n: int) -> char {
    if n < 10 {
        (n + '0' as int) as char
    } else {
        (n - 10 + 'a' as int) as char
    }
}

/// A character in the JSON text of a string: quotation marks, backslashes and control characters
/// are escaped.
pub open spec fn escaped(c: char) -> Seq<char> {
    if c == '"' || c == '\\' {
        seq!['\\', c]
    } else if c as int == 0x08 {
        seq!['\\', 'b']
    } else if c as int == 0x09 {
        seq!['\\', 't']
    } else if c as int == 0x0A {
        seq!['\\', 'n']
    } else if c as int == 0x0C {
        seq!['\\', 'f']
    } else if c as int == 0x0D {
        seq!['\\', 'r']
    } else if (c as int) < 0x20 {
        seq!['\\', 'u', '0', '0', hex_digit(c as int / 16), hex_digit(c as int % 16)]
    } else {
        seq![c]
    }
}

/// The characters of a string, escaped where they have to be.
pub open spec fn all_escaped(s: Seq<char>) -> Seq<char>
    decreases s.len(),
{
    if s.len() == 0 {
        s
    } else {
        all_escaped(s.drop_last()) + escaped(s.last())
    }
}

/// The JSON text of a string.
pub open spec fn quoted(s: Seq<char>) -> Seq<char> {
    seq!['"'] + all_escaped(s) + seq!['"']
}

/// Calls `serde_json::to_string` on a string, for which it does not fail. The contract says
/// what text it gives: the string in quotation marks, where a quotation mark, a backslash and
/// each control character below 0x20 is escaped, and nothing else is.
#[verifier::external_body]
fn quote(s: &str) -> (r: String)
    ensures
        r@ == quoted(s@),
{
    serde_json::to_string(s).unwrap_or_default()
}

proof fn lemma_log_between(n: int, e: nat)
    requires
        pow2(e) <= n < pow2(e + 1),
    ensures
        log(2, n) == e,
    decreases e,
{
    lemma2_to64();
    lemma_pow2_unfold(e + 1);
    if e == 0 {
        reveal(log);
    } else {
        lemma_pow2_unfold(e);
        lemma_log_s(2, n);
        lemma_log_between(n / 2, (e - 1) as nat);
    }
}

/// The double-precision number nearest to a whole number.
fn to_double(n: u64) -> (r: u64)
    ensures
        r == nearest_double(n),
        r < WIDE_SIGN,
{
    proof {
        lemma2_to64();
        lemma2_to64_rest();
    }
    if n == 0 {
        return 0;
    }
    if n < 0x20_0000_0000_0000 {
        let mut m: u64 = n;
        let mut e: u64 = 52;
        assert(n * pow2(0) == n) by (nonlinear_arith)
            requires
                pow2(0) == 1,
        ;
        while m < 0x10_0000_0000_0000
            invariant
                0 < n < 0x20_0000_0000_0000,
                m < 0x20_0000_0000_0000,
                e <= 52,
                m == n * pow2((52 - e) as nat),
                pow2(52) == 0x10_0000_0000_0000,
                pow2(53) == 0x20_0000_0000_0000,
            decreases e,
        {
            proof {
                if e == 0 {
                    assert(n * pow2(52) >= pow2(52)) by (nonlinear_arith)
                        requires
                            n >= 1,
                            pow2(52) > 0,
                    ;
                }
                lemma_pow2_unfold((53 - e) as nat);
                let a = pow2((52 - e) as nat);
                assert(n * (2 * a) == 2 * (n * a)) by (nonlinear_arith);
            }
            m = m * 2;
            e = e - 1;
        }
        proof {
            let k = (52 - e) as nat;
            lemma_pow2_pos(k);
            lemma_scaled(n as int, e as nat);
            lemma_log_between(n as int, e as nat);
        }
        (e + 1022) * 0x10_0000_0000_0000 + m
    } else {
        let mut gap: u64 = 1;
        let mut e: u64 = 52;
        while n / gap >= 0x20_0000_0000_0000
            invariant
                n >= 0x10_0000_0000_0000,
                52 <= e <= 63,
                gap == pow2((e - 52) as nat),
                0 < gap <= 2048,
                n / gap >= 0x10_0000_0000_0000,
                pow2(11) == 2048,
            decreases 64 - e,
        {
            proof {
                lemma_pow2_unfold((e - 51) as nat);
                lemma_halve(n as int, gap as int);
                assert(e < 63) by {
                    if e == 63 {
                        assert(n as int / 2048 < 0x20_0000_0000_0000);
                    }
                }
                lemma_gap_bound((e - 51) as nat);
            }
            gap = gap * 2;
            e = e + 1;
        }
        proof {
            lemma_wide_log(n as int, e as nat);
        }
        let q: u64 = n / gap;
        let r: u64 = n % gap;
        assert(2 * r < 4096);
        let up: u64 = if 2 * r > gap || (2 * r == gap && q % 2 == 1) {
            1
        } else {
            0
        };
        (e + 1022) * 0x10_0000_0000_0000 + q + up
    }
}

proof fn lemma_scaled(n: int, e: nat)
    requires
        e <= 52,
        pow2(52) <= n * pow2((52 - e) as nat) < pow2(53),
    ensures
        pow2(e) <= n < pow2(e + 1),
{
    vstd::arithmetic::power2::lemma_pow2_adds(e, (52 - e) as nat);
    vstd::arithmetic::power2::lemma_pow2_adds(e + 1, (52 - e) as nat);
    let k = pow2((52 - e) as nat) as int;
    let a = pow2(e) as int;
    let b = pow2(e + 1) as int;
    lemma_pow2_pos((52 - e) as nat);
    assert(a <= n < b) by (nonlinear_arith)
        requires
            a * k <= n * k < b * k,
            k > 0,
    ;
}

proof fn lemma_halve(n: int, gap: int)
    requires
        gap > 0,
        n >= 0,
        n / gap >= 0x20_0000_0000_0000,
    ensures
        n / (2 * gap) >= 0x10_0000_0000_0000,
{
    assert(n / (gap * 2) == (n / gap) / 2) by {
        vstd::arithmetic::div_mod::lemma_div_denominator(n, gap, 2);
    }
}

proof fn lemma_gap_bound(k: nat)
    requires
        k <= 11,
    ensures
        pow2(k) <= 2048,
{
    lemma2_to64();
}

proof fn lemma_wide_log(n: int, e: nat)
    requires
        52 <= e <= 63,
        0x10_0000_0000_0000 <= n / (pow2((e - 52) as nat) as int) < 0x20_0000_0000_0000,
    ensures
        log(2, n) == e,
{
    lemma2_to64();
    lemma2_to64_rest();
    let k = (e - 52) as nat;
    lemma_pow2_pos(k);
    let gap = pow2(k) as int;
    vstd::arithmetic::power2::lemma_pow2_adds(52, k);
    vstd::arithmetic::power2::lemma_pow2_adds(53, k);
    vstd::arithmetic::div_mod::lemma_fundamental_div_mod(n, gap);
    let q = n / gap;
    assert(0 <= n % gap < gap) by {
        vstd::arithmetic::div_mod::lemma_mod_bound(n, gap);
    }
    assert(0x10_0000_0000_0000 * gap <= gap * q) by (nonlinear_arith)
        requires
            0x10_0000_0000_0000 <= q,
            gap > 0,
    ;
    assert(gap * q + gap <= 0x20_0000_0000_0000 * gap) by (nonlinear_arith)
        requires
            q + 1 <= 0x20_0000_0000_0000,
            gap > 0,
    ;
    lemma_log_between(n, e);
}

impl Num {
    /// The number as a double-precision one.
    pub fn as_double(&self) -> (r: u64)
        ensures
            r == double_of(*self),
    {
        match self {
            Num::PosInt(x) => to_double(*x),
            Num::NegInt(x) => if *x < 0 {
                let a: u64 = if *x == i64::MIN {
                    0x8000_0000_0000_0000
                } else {
                    (-*x) as u64
                };
                WIDE_SIGN + to_double(a)
            } else {
                to_double(*x as u64)
            },
            Num::Float(x) => *x,
        }
    }
}

impl Json {
    /// The value of a field of an object.
    pub fn get(&self, name: &str) -> (r: Option<&Json>)
        ensures
            match r {
                Some(v) => field_of(self@, name@) == Some(v@),
                None => field_of(self@, name@) is None,
            },
    {
        match self {
            Json::Object(fields) => find_field(fields, &name.to_owned()),
            _ => None,
        }
    }

    /// Whether the value is `null`.
    pub fn is_null(&self) -> (r: bool)
        ensures
            r == (self@ is Null),
    {
        match self {
            Json::Null => true,
            _ => false,
        }
    }

    /// Whether two values are equal.
    pub fn equals(&self, other: &Json) -> (r: bool)
        ensures
            r == same(self@, other@),
        decreases self,
    {
        match (self, other) {
            (Json::Null, Json::Null) => true,
            (Json::Bool(x), Json::Bool(y)) => *x == *y,
            (Json::Number(x), Json::Number(y)) => match (x.value, y.value) {
                (Num::PosInt(a), Num::PosInt(b)) => a == b,
                (Num::NegInt(a), Num::NegInt(b)) => a == b,
                (Num::Float(a), Num::Float(b)) => wide_eq(a, b),
                _ => false,
            },
            (Json::Str(x), Json::Str(y)) => *x == *y,
            (Json::Array(x), Json::Array(y)) => {
                let ghost xs = self@->Array_0;
                let ghost ys = other@->Array_0;
                if x.len() != y.len() {
                    return false;
                }
                let mut i: usize = 0;
                while i < x.len()
                    invariant
                        i <= x.len(),
                        x.len() == y.len(),
                        *self == Json::Array(*x),
                        xs == self@->Array_0,
                        ys.len() == y.len(),
                        xs.len() == x.len(),
                        forall|j: int| 0 <= j < x.len() ==> #[trigger] xs[j] == x@[j]@,
                        forall|j: int| 0 <= j < y.len() ==> #[trigger] ys[j] == y@[j]@,
                        forall|j: int| 0 <= j < i ==> same(#[trigger] xs[j], ys[j]),
                        self@ == JsonView::Array(xs),
                        other@ == JsonView::Array(ys),
                    decreases x.len() - i,
                {
                    proof {
                        assert(decreases_to!(*self => self->Array_0));
                        assert(decreases_to!(self->Array_0 => (self->Array_0)@));
                        assert(decreases_to!(x@ => x@[i as int]));
                    }
                    if !x[i].equals(&y[i]) {
                        assert(!same(xs[i as int], ys[i as int]));
                        return false;
                    }
                    i = i + 1;
                }
                true
            },
            (Json::Object(x), Json::Object(y)) => {
                let ghost xs = self@->Object_0;
                let ghost ys = other@->Object_0;
                if x.len() != y.len() {
                    return false;
                }
                let mut i: usize = 0;
                while i < x.len()
                    invariant
                        i <= x.len(),
                        x.len() == y.len(),
                        *self == Json::Object(*x),
                        *other == Json::Object(*y),
                        ys.len() == y.len(),
                        xs.len() == x.len(),
                        forall|j: int|
                            0 <= j < x.len() ==> #[trigger] xs[j] == (x@[j].0@, x@[j].1@),
                        forall|j: int|
                            0 <= j < y.len() ==> #[trigger] ys[j] == (y@[j].0@, y@[j].1@),
                        forall|j: int|
                            0 <= j < i ==> match first_field(ys, (#[trigger] xs[j]).0) {
                                Some(w) => same(xs[j].1, w),
                                None => false,
                            },
                        self@ == JsonView::Object(xs),
                        other@ == JsonView::Object(ys),
                    decreases x.len() - i,
                {
                    proof {
                        assert(decreases_to!(*self => self->Object_0));
                        assert(decreases_to!(self->Object_0 => (self->Object_0)@));
                        assert(decreases_to!(x@ => x@[i as int]));
                        assert(decreases_to!(x@[i as int] => x@[i as int].1));
                        assert(xs[i as int].0 == x@[i as int].0@);
                    }
                    match find_field(y, &x[i].0) {
                        None => {
                            return false;
                        },
                        Some(w) => {
                            if !x[i].1.equals(w) {
                                return false;
                            }
                        },
                    }
                    i = i + 1;
                }
                true
            },
            _ => false,
        }
    }

    /// The length of the compact text of the value, in bytes, modulo 2^64.
    pub fn text_len(&self) -> (r: u64)
        ensures
            r == text_len_of(self@) % 0x1_0000_0000_0000_0000,
        decreases self,
    {
        match self {
            Json::Null => 4,
            Json::Bool(b) => if *b {
                4
            } else {
                5
            },
            Json::Number(n) => wrap_len(n.text.as_str()),
            Json::Str(s) => wrap_len(quote(s.as_str()).as_str()),
            Json::Array(x) => {
                let ghost xs = self@->Array_0;
                let mut total: u64 = 2;
                let mut i: usize = 0;
                while i < x.len()
                    invariant
                        i <= x.len(),
                        *self == Json::Array(*x),
                        xs.len() == x.len(),
                        forall|j: int| 0 <= j < x.len() ==> #[trigger] xs[j] == x@[j]@,
                        total == (2 + separators(i as nat) + items_len(xs.take(i as int)))
                            % 0x1_0000_0000_0000_0000,
                    decreases x.len() - i,
                {
                    proof {
                        assert(decreases_to!(*self => self->Array_0));
                        assert(decreases_to!(self->Array_0 => (self->Array_0)@));
                        assert(decreases_to!(x@ => x@[i as int]));
                        assert(xs.take(i + 1).drop_last() =~= xs.take(i as int));
                    }
                    let ghost so_far = 2 + separators(i as nat) + items_len(xs.take(i as int));
                    let comma: u64 = if i > 0 {
                        1
                    } else {
                        0
                    };
                    total = plus(total, comma, Ghost(so_far), Ghost(comma as nat));
                    total = plus(
                        total,
                        x[i].text_len(),
                        Ghost(so_far + comma as nat),
                        Ghost(text_len_of(xs[i as int])),
                    );
                    i = i + 1;
                }
                assert(xs.take(xs.len() as int) =~= xs);
                total
            },
            Json::Object(x) => {
                let ghost xs = self@->Object_0;
                let mut total: u64 = 2;
                let mut i: usize = 0;
                while i < x.len()
                    invariant
                        i <= x.len(),
                        *self == Json::Object(*x),
                        xs.len() == x.len(),
                        forall|j: int|
                            0 <= j < x.len() ==> #[trigger] xs[j] == (x@[j].0@, x@[j].1@),
                        total == (2 + separators(i as nat) + fields_len(xs.take(i as int)))
                            % 0x1_0000_0000_0000_0000,
                    decreases x.len() - i,
                {
                    proof {
                        assert(decreases_to!(*self => self->Object_0));
                        assert(decreases_to!(self->Object_0 => (self->Object_0)@));
                        assert(decreases_to!(x@ => x@[i as int]));
                        assert(decreases_to!(x@[i as int] => x@[i as int].1));
                        assert(xs.take(i + 1).drop_last() =~= xs.take(i as int));
                        assert(xs.take(i + 1).last() == xs[i as int]);
                    }
                    let ghost so_far = 2 + separators(i as nat) + fields_len(xs.take(i as int));
                    let comma: u64 = if i > 0 {
                        1
                    } else {
                        0
                    };
                    let name = quote(x[i].0.as_str());
                    let ghost name_len = vstd::utf8::encode_utf8(name@).len();
                    total = plus(total, comma, Ghost(so_far), Ghost(comma as nat));
                    total = plus(
                        total,
                        wrap_len(name.as_str()),
                        Ghost(so_far + comma as nat),
                        Ghost(name_len),
                    );
                    total = plus(total, 1, Ghost(so_far + comma as nat + name_len), Ghost(1));
                    total = plus(
                        total,
                        x[i].1.text_len(),
                        Ghost(so_far + comma as nat + name_len + 1),
                        Ghost(text_len_of(xs[i as int].1)),
                    );
                    i = i + 1;
                }
                assert(xs.take(xs.len() as int) =~= xs);
                total
            },
        }
    }
}

impl Clone for Json {
    fn clone(&self) -> (r: Self)
        ensures
            r@ == self@,
        decreases self,
    {
        match self {
            Json::Null => Json::Null,
            Json::Bool(b) => Json::Bool(*b),
            Json::Number(n) => Json::Number(Number { value: n.value, text: n.text.clone() }),
            Json::Str(s) => Json::Str(s.clone()),
            Json::Array(x) => {
                let mut out: Vec<Json> = Vec::new();
                let mut i: usize = 0;
                while i < x.len()
                    invariant
                        i <= x.len(),
                        *self == Json::Array(*x),
                        out.len() == i,
                        forall|j: int| 0 <= j < i ==> (#[trigger] out@[j])@ == x@[j]@,
                    decreases x.len() - i,
                {
                    proof {
                        assert(decreases_to!(*self => self->Array_0));
                        assert(decreases_to!(self->Array_0 => (self->Array_0)@));
                        assert(decreases_to!(x@ => x@[i as int]));
                    }
                    out.push(x[i].clone());
                    i = i + 1;
                }
                let r = Json::Array(out);
                assert(r@->Array_0 =~= self@->Array_0);
                r
            },
            Json::Object(x) => {
                let mut out: Vec<(String, Json)> = Vec::new();
                let mut i: usize = 0;
                while i < x.len()
                    invariant
                        i <= x.len(),
                        *self == Json::Object(*x),
                        out.len() == i,
                        forall|j: int|
                            0 <= j < i ==> (#[trigger] out@[j]).0@ == x@[j].0@ && out@[j].1@
                                == x@[j].1@,
                    decreases x.len() - i,
                {
                    proof {
                        assert(decreases_to!(*self => self->Object_0));
                        assert(decreases_to!(self->Object_0 => (self->Object_0)@));
                        assert(decreases_to!(x@ => x@[i as int]));
                        assert(decreases_to!(x@[i as int] => x@[i as int].1));
                    }
                    out.push((x[i].0.clone(), x[i].1.clone()));
                    i = i + 1;
                }
                let r = Json::Object(out);
                assert(r@->Object_0 =~= self@->Object_0);
                r
            },
        }
    }
}

/// The first of some fields that has the given name.
fn find_field<'a>(fields: &'a Vec<(String, Json)>, name: &String) -> (r: Option<&'a Json>)
    ensures
        match r {
            Some(v) => field_of(Json::Object(*fields)@, name@) == Some(v@),
            None => field_of(Json::Object(*fields)@, name@) is None,
        },
{
    let ghost all = Json::Object(*fields)@->Object_0;
    let mut i: usize = 0;
    assert(all.skip(0) =~= all);
    while i < fields.len()
        invariant
            i <= fields.len(),
            Json::Object(*fields)@ == JsonView::Object(all),
            all.len() == fields.len(),
            forall|j: int|
                0 <= j < all.len() ==> #[trigger] all[j] == (fields@[j].0@, fields@[j].1@),
            first_field(all.skip(i as int), name@) == first_field(all, name@),
        decreases fields.len() - i,
    {
        assert(all.skip(i as int)[0] == all[i as int]);
        assert(all.skip(i as int).drop_first() =~= all.skip(i + 1));
        if fields[i].0 == *name {
            return Some(&fields[i].1);
        }
        i = i + 1;
    }
    None
}

// ------------------------------------------------------------ laws

/// What the pattern with an exponent and a fraction stands for.
proof fn lemma_pattern(x: nat, t: int)
    requires
        x <= 63,
        0x10_0000_0000_0000 <= t <= 0x20_0000_0000_0000,
    ensures
        ({
            let p = (x + 1022) * 0x10_0000_0000_0000 + t;
            &&& 0 <= p < WIDE_SIGN
            &&& wide_number(p as u64) == t * pow2(x + 1022)
        }),
{
    let one = 0x10_0000_0000_0000int;
    let p = (x + 1022) * one + t;
    if t < 0x20_0000_0000_0000 {
        assert(p == (x + 1023) * one + (t - one));
        lemma_fundamental_div_mod_converse(p, one, (x + 1023) as int, t - one);
        assert(amount(p, one) == t * pow2(x + 1022));
    } else {
        assert(p == (x + 1024) * one + 0);
        lemma_fundamental_div_mod_converse(p, one, (x + 1024) as int, 0);
        lemma_pow2_unfold(x + 1023);
        let a = pow2(x + 1022) as int;
        assert(one * (2 * a) == t * a) by (nonlinear_arith)
            requires
                t == 2 * one,
        ;
    }
    assert((p as u64) / 0x8000_0000_0000_0000 == 0);
    assert(p % 0x8000_0000_0000_0000 == p);
}

/// A whole number up to 2^53 is the number that its double stands for. A greater one, which is at
/// least `2^e`, is not farther from it than half of `2^(e-52)`. The double of a negative number
/// stands for the opposite of that of its amount.
pub proof fn law_whole_numbers_as_doubles(n: u64, e: nat)
    requires
        pow2(e) <= n < pow2(e + 1),
    ensures
        wide_number(double_of(Num::PosInt(0))) == 0,
        e <= 52 ==> wide_number(double_of(Num::PosInt(n))) == n * pow2(1074),
        e > 52 ==> exists|m: int|
            #![trigger m * pow2(1074)]
            wide_number(double_of(Num::PosInt(n))) == m * pow2(1074) && 2 * (m - n) <= pow2(
                (e - 52) as nat,
            ) && 2 * (n - m) <= pow2((e - 52) as nat),
        n <= 0x7FFF_FFFF_FFFF_FFFF ==> wide_number(double_of(Num::NegInt((0 - n) as i64)))
            == -wide_number(double_of(Num::PosInt(n))),
{
    assert(wide_number(0) == 0);
    lemma2_to64();
    lemma2_to64_rest();
    lemma_log_between(n as int, e);
    lemma_pow2_pos(e);
    if e >= 64 {
        lemma_pow2_grows(64, e);
    }
    let one = 0x10_0000_0000_0000int;
    let d = nearest_double(n);
    if e <= 52 {
        let k = (52 - e) as nat;
        lemma_pow2_adds(e, k);
        lemma_pow2_adds(e + 1, k);
        lemma_pow2_pos(k);
        let t = n * pow2(k);
        let a = pow2(e) as int;
        let b = pow2(e + 1) as int;
        let c = pow2(k) as int;
        assert(a * c <= n * c < b * c) by (nonlinear_arith)
            requires
                a <= n < b,
                c > 0,
        ;
        lemma_pattern(e, t);
        lemma_pow2_adds(k, e + 1022);
        let f = pow2(e + 1022) as int;
        assert((n * c) * f == n * (c * f)) by (nonlinear_arith);
    } else {
        let k = (e - 52) as nat;
        let gap = pow2(k) as int;
        lemma_pow2_pos(k);
        lemma_pow2_adds(52, k);
        lemma_pow2_adds(53, k);
        let q = n as int / gap;
        let r = n as int % gap;
        lemma_fundamental_div_mod(n as int, gap);
        lemma_mod_bound(n as int, gap);
        assert(one <= q < 2 * one) by (nonlinear_arith)
            requires
                one * gap <= n < (2 * one) * gap,
                n == gap * q + r,
                0 <= r < gap,
                gap > 0,
        ;
        let up: int = if 2 * r > gap || (2 * r == gap && q % 2 == 1) {
            1
        } else {
            0
        };
        let t = q + up;
        lemma_pattern(e, t);
        assert(d == ((e + 1022) * one + t) as u64);
        lemma_pow2_adds(k, 1074);
        let z = pow2(1074) as int;
        let m = t * gap;
        assert(t * (gap * z) == m * z) by (nonlinear_arith)
            requires
                m == t * gap,
        ;
        assert(2 * (m - n) <= gap && 2 * (n - m) <= gap) by (nonlinear_arith)
            requires
                m == (q + up) * gap,
                n == gap * q + r,
                0 <= r < gap,
                up == 1 ==> 2 * r >= gap,
                up == 0 ==> 2 * r <= gap,
                up == 0 || up == 1,
        ;
        assert(wide_number(d) == m * pow2(1074));
    }
    if n <= 0x7FFF_FFFF_FFFF_FFFF {
        let x = (0 - n) as i64;
        assert(x < 0);
        assert((-x) as u64 == n);
        assert(d < WIDE_SIGN);
        let w = (WIDE_SIGN + d) as u64;
        assert(w / 0x8000_0000_0000_0000 == 1);
        assert(w as int % 0x8000_0000_0000_0000 == d as int % 0x8000_0000_0000_0000);
    }
}

/// Powers of two grow.
proof fn lemma_pow2_grows(a: nat, b: nat)
    requires
        a <= b,
    ensures
        pow2(a) <= pow2(b),
    decreases b - a,
{
    if a < b {
        lemma_pow2_grows(a, (b - 1) as nat);
        lemma_pow2_unfold(b);
    }
}

/// Values of different kinds are never equal. Truth values and texts are equal if they are the same,
/// whole numbers if they are the same number, and other numbers if they stand for the same number; a
/// whole number never equals another kind of number. Lists are equal item by item, and objects if
/// they have as many fields, and the other one has each field of the one with an equal value.
pub proof fn law_equal_values(a: JsonView, b: JsonView)
    ensures
        same(a, b) == (match a {
            JsonView::Null => b is Null,
            JsonView::Bool(x) => b == JsonView::Bool(x),
            JsonView::Str(x) => b == JsonView::Str(x),
            JsonView::Number(x, _) => b is Number && match (x, b->Number_0) {
                (Num::PosInt(x), Num::PosInt(y)) => x == y,
                (Num::NegInt(x), Num::NegInt(y)) => x == y,
                (Num::Float(x), Num::Float(y)) => !wide_nan(x) && !wide_nan(y) && wide_number(x)
                    == wide_number(y),
                _ => false,
            },
            JsonView::Array(x) => b is Array && b->Array_0.len() == x.len() && forall|i: int|
                0 <= i < x.len() ==> same(#[trigger] x[i], b->Array_0[i]),
            JsonView::Object(x) => b is Object && b->Object_0.len() == x.len() && forall|i: int|
                0 <= i < x.len() ==> field_of(b, (#[trigger] x[i]).0) is Some && same(
                    x[i].1,
                    field_of(b, x[i].0)->0,
                ),
        }),
{
    match (a, b) {
        (JsonView::Number(Num::Float(x), _), JsonView::Number(Num::Float(y), _)) => {
            law_wide_patterns_compare_as_numbers(x, y);
        },
        _ => {},
    }
}

/// The first field of a name is one of the fields, and no field before it has the name.
proof fn lemma_first_field(fields: Seq<(Seq<char>, JsonView)>, name: Seq<char>)
    ensures
        match first_field(fields, name) {
            Some(v) => exists|i: int|
                0 <= i < fields.len() && #[trigger] fields[i] == (name, v) && forall|j: int|
                    0 <= j < i ==> (#[trigger] fields[j]).0 != name,
            None => forall|i: int| 0 <= i < fields.len() ==> (#[trigger] fields[i]).0 != name,
        },
    decreases fields.len(),
{
    if fields.len() > 0 && fields[0].0 != name {
        let rest = fields.drop_first();
        lemma_first_field(rest, name);
        match first_field(rest, name) {
            Some(v) => {
                let i = choose|i: int|
                    0 <= i < rest.len() && #[trigger] rest[i] == (name, v) && forall|j: int|
                        0 <= j < i ==> (#[trigger] rest[j]).0 != name;
                assert(fields[i + 1] == (name, v));
                assert forall|j: int| 0 <= j < i + 1 implies (#[trigger] fields[j]).0 != name by {
                    if j > 0 {
                        assert(rest[j - 1] == fields[j]);
                    }
                }
            },
            None => {
                assert forall|i: int| 0 <= i < fields.len() implies (
                #[trigger] fields[i]).0 != name by {
                    if i > 0 {
                        assert(rest[i - 1] == fields[i]);
                    }
                }
            },
        }
    }
}

/// The value of a field of an object is that of the first field that has the name; there is none
/// where no field has it, and none where the value is no object.
pub proof fn law_fields(v: JsonView, name: Seq<char>, i: int)
    ensures
        !(v is Object) ==> field_of(v, name) is None,
        v is Object && (forall|j: int|
            0 <= j < v->Object_0.len() ==> (#[trigger] v->Object_0[j]).0 != name) ==> field_of(
            v,
            name,
        ) is None,
        v is Object && 0 <= i < v->Object_0.len() && v->Object_0[i].0 == name && (forall|j: int|
            0 <= j < i ==> (#[trigger] v->Object_0[j]).0 != name) ==> field_of(v, name) == Some(
            v->Object_0[i].1,
        ),
{
    if let JsonView::Object(fields) = v {
        lemma_first_field(fields, name);
        if 0 <= i < fields.len() && fields[i].0 == name && (forall|j: int|
            0 <= j < i ==> (#[trigger] fields[j]).0 != name) {
            let w = first_field(fields, name)->0;
            let k = choose|k: int|
                0 <= k < fields.len() && #[trigger] fields[k] == (name, w) && forall|j: int|
                    0 <= j < k ==> (#[trigger] fields[j]).0 != name;
            assert(k == i);
        }
    }
}

/// The JSON text of a value, without spaces.
pub open spec fn text_of(v: JsonView) -> Seq<char>
    decreases v,
{
    match v {
        JsonView::Null => "null"@,
        JsonView::Bool(b) => if b {
            "true"@
        } else {
            "false"@
        },
        JsonView::Number(_, text) => text,
        JsonView::Str(s) => quoted(s),
        JsonView::Array(items) => seq!['['] + items_text(items) + seq![']'],
        JsonView::Object(fields) => seq!['{'] + fields_text(fields) + seq!['}'],
    }
}

/// The texts of some values, with commas between them.
pub open spec fn items_text(items: Seq<JsonView>) -> Seq<char>
    decreases items,
{
    if items.len() == 0 {
        Seq::empty()
    } else if items.len() == 1 {
        text_of(items[0])
    } else {
        items_text(items.drop_last()) + seq![','] + text_of(items.last())
    }
}

/// The texts of some fields, with commas between them.
pub open spec fn fields_text(fields: Seq<(Seq<char>, JsonView)>) -> Seq<char>
    decreases fields,
{
    if fields.len() == 0 {
        Seq::empty()
    } else {
        (if fields.len() == 1 {
            Seq::empty()
        } else {
            fields_text(fields.drop_last()) + seq![',']
        }) + quoted(fields.last().0) + seq![':'] + text_of(fields.last().1)
    }
}

/// The bytes of texts one after the other.
proof fn lemma_utf8_joined(a: Seq<char>, b: Seq<char>)
    ensures
        encode_utf8(a + b) == encode_utf8(a) + encode_utf8(b),
    decreases a.len(),
{
    if a.len() == 0 {
        assert(a + b =~= b);
        assert(encode_utf8(a) + encode_utf8(b) =~= encode_utf8(b));
    } else {
        assert((a + b).drop_first() =~= a.drop_first() + b);
        assert((a + b)[0] == a[0]);
        lemma_utf8_joined(a.drop_first(), b);
        assert(encode_utf8(a + b) =~= encode_utf8(a) + encode_utf8(b));
    }
}

/// The length of a text of ASCII characters in bytes.
proof fn lemma_utf8_ascii(s: Seq<char>)
    requires
        vstd::utf8::is_ascii_chars(s),
    ensures
        encode_utf8(s).len() == s.len(),
{
    vstd::utf8::is_ascii_chars_encode_utf8(s);
}

/// The length of the text of a value is how many bytes its JSON text takes.
pub proof fn law_text_length(v: JsonView)
    ensures
        text_len_of(v) == encode_utf8(text_of(v)).len(),
    decreases v,
{
    reveal_strlit("null");
    reveal_strlit("true");
    reveal_strlit("false");
    match v {
        JsonView::Null => {
            lemma_utf8_ascii("null"@);
        },
        JsonView::Bool(b) => {
            lemma_utf8_ascii("true"@);
            lemma_utf8_ascii("false"@);
        },
        JsonView::Number(_, _) => {},
        JsonView::Str(_) => {},
        JsonView::Array(items) => {
            law_items_length(items);
            let t = items_text(items);
            lemma_utf8_joined(seq!['['], t);
            lemma_utf8_joined(seq!['['] + t, seq![']']);
            lemma_utf8_ascii(seq!['[']);
            lemma_utf8_ascii(seq![']']);
        },
        JsonView::Object(fields) => {
            law_fields_length(fields);
            let t = fields_text(fields);
            lemma_utf8_joined(seq!['{'], t);
            lemma_utf8_joined(seq!['{'] + t, seq!['}']);
            lemma_utf8_ascii(seq!['{']);
            lemma_utf8_ascii(seq!['}']);
        },
    }
}

/// The length of the texts of some values, with commas between them.
pub proof fn law_items_length(items: Seq<JsonView>)
    ensures
        encode_utf8(items_text(items)).len() == separators(items.len()) + items_len(items),
    decreases items,
{
    if items.len() > 0 {
        let rest = items.drop_last();
        law_items_length(rest);
        law_text_length(items.last());
        if items.len() == 1 {
            assert(items_len(rest) == 0);
        } else {
            let t = items_text(rest);
            lemma_utf8_joined(t, seq![',']);
            lemma_utf8_joined(t + seq![','], text_of(items.last()));
            lemma_utf8_ascii(seq![',']);
        }
    }
}

/// The length of the texts of some fields, with commas between them.
pub proof fn law_fields_length(fields: Seq<(Seq<char>, JsonView)>)
    ensures
        encode_utf8(fields_text(fields)).len() == separators(fields.len()) + fields_len(fields),
    decreases fields,
{
    if fields.len() > 0 {
        let rest = fields.drop_last();
        law_fields_length(rest);
        law_text_length(fields.last().1);
        let head = if fields.len() == 1 {
            Seq::<char>::empty()
        } else {
            fields_text(rest) + seq![',']
        };
        let name = quoted(fields.last().0);
        lemma_utf8_joined(fields_text(rest), seq![',']);
        lemma_utf8_joined(head, name);
        lemma_utf8_joined(head + name, seq![':']);
        lemma_utf8_joined(head + name + seq![':'], text_of(fields.last().1));
        lemma_utf8_ascii(seq![',']);
        lemma_utf8_ascii(seq![':']);
        if fields.len() == 1 {
            assert(fields_len(rest) == 0);
            assert(encode_utf8(head).len() == 0);
        }
    }
}

} // verus!
