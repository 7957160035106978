use vstd::prelude::*;
use vstd::slice::slice_to_vec;
use vstd::utf8::{decode_utf8, valid_utf8};

verus! {

/// Represents a redis RESP protocol response.
#[derive(PartialEq, Eq, Debug)]
pub enum Value {
    /// A nil response from the server.
    Nil,
    /// A status response that represents the string "OK".
    Okay,
    /// An integer response.
    Int(i64),
    /// A simple string response.
    Status(String),
    /// A bulk string reply: raw bytes, not necessarily UTF-8.
    Bulk(Vec<u8>),
    /// An array response of more data.
    Array(Vec<Value>),
}

impl Clone for Value {
    fn clone(&self) -> (r: Self)
        ensures
            r@ == self@,
        decreases self,
    {
        match self {
            Value::Nil => Value::Nil,
            Value::Okay => Value::Okay,
            Value::Int(n) => Value::Int(*n),
            Value::Status(s) => Value::Status(s.clone()),
            Value::Bulk(b) => Value::Bulk(slice_to_vec(b.as_slice())),
            Value::Array(items) => {
                let mut out: Vec<Value> = Vec::new();
                let mut i: usize = 0;
                while i < items.len()
                    invariant
                        i <= items@.len(),
                        out@.len() == i,
                        *self == Value::Array(*items),
                        forall|j: int| 0 <= j < i ==> (#[trigger] out@[j])@ == items@[j]@,
                    decreases items@.len() - i,
                {
                    proof {
                        vstd::std_specs::vec::axiom_vec_index_decreases(*items, i as int);
                        assert(decreases_to!(*self => (*self)->Array_0));
                        assert(decreases_to!(*items => items[i as int]));
                        assert(decreases_to!(*self => items[i as int]));
                    }
                    out.push(items[i].clone());
                    i = i + 1;
                }
                let r = Value::Array(out);
                proof {
                    let t = r@->Array_0;
                    let u = self@->Array_0;
                    assert(t =~= u);
                }
                r
            },
        }
    }
}

/// The mathematical model of a [`Value`].
pub enum Reply {
    Nil,
    Okay,
    Int(int),
    Status(Seq<char>),
    Bulk(Seq<u8>),
    Array(Seq<Reply>),
}

impl View for Value {
    type V = Reply;

    open spec fn view(&self) -> Reply
        decreases self,
    {
        match self {
            Value::Nil => Reply::Nil,
            Value::Okay => Reply::Okay,
            Value::Int(n) => Reply::Int(*n as int),
            Value::Status(s) => Reply::Status(s@),
            Value::Bulk(b) => Reply::Bulk(b@),
            Value::Array(items) => Reply::Array(
                Seq::new(
                    items.len() as nat,
                    |i: int|
                        if 0 <= i < items.len() {
                            items[i].view()
                        } else {
                            Reply::Nil
                        },
                ),
            ),
        }
    }
}

/// The character of a decimal digit.
pub open spec fn digit_char(d: nat) -> char {
    ((48 + d) as u8) as char
}

/// The decimal digits of `n`, without leading zeros.
pub open spec fn digits_of(n: nat) -> Seq<char>
    decreases n,
{
    if n < 10 {
        seq![digit_char(n)]
    } else {
        digits_of(n / 10).push(digit_char(n % 10))
    }
}

/// The decimal text of `n`: `-` before the digits of a negative number.
pub open spec fn decimal_of(n: int) -> Seq<char> {
    if n < 0 {
        seq!['-'] + digits_of((-n) as nat)
    } else {
        digits_of(n as nat)
    }
}

/// The text that a reply converts to, where it converts to text at all.
pub open spec fn text_of(r: Reply) -> Option<Seq<char>> {
    match r {
        Reply::Okay => Some(seq!['O', 'k']),
        Reply::Nil => Some(Seq::empty()),
        Reply::Int(n) => Some(decimal_of(n)),
        Reply::Status(s) => Some(s),
        Reply::Bulk(b) => if valid_utf8(b) {
            Some(decode_utf8(b))
        } else {
            None
        },
        Reply::Array(_) => None,
    }
}

/// A failed command: the command line sent and what went wrong.
#[derive(Debug)]
pub struct RedisError {
    pub command: String,
    pub message: String,
}

pub type RedisResult<T> = Result<T, RedisError>;

/// A type that can be extracted from a value of type `T`.
pub trait ParseFrom<T>: Sized {
    /// Whether `value` converts to this type.
    spec fn accepts(value: T) -> bool;

    /// Whether `out` is what `value` converts to.
    spec fn converts_to(value: T, out: Self) -> bool;

    /// The description of why `value` does not convert.
    spec fn failure(value: T) -> Seq<char>;

    /// Converts `value`, or describes why it does not convert.
    fn parse_from(value: T) -> (r: Result<Self, String>)
        ensures
            r is Ok <==> Self::accepts(value),
            r matches Ok(out) ==> Self::converts_to(value, out),
            r matches Err(m) ==> m@ == Self::failure(value),
    ;
}

impl Value {
    /// Extracts a value of type `T`.
    pub fn try_into<T: ParseFrom<Self>>(self) -> (r: Result<T, String>)
        ensures
            r is Ok <==> T::accepts(self),
            r matches Ok(out) ==> T::converts_to(self, out),
            r matches Err(m) ==> m@ == T::failure(self),
    {
        T::parse_from(self)
    }
}

/// The text that the derived `Debug` gives for a value.
pub uninterp spec fn debug_of(v: Reply) -> Seq<char>;

/// The error of a value whose variant does not fit the target type: it names the value.
pub open spec fn failed_parsing_text(v: Reply) -> Seq<char> {
    "Failed parsing "@ + debug_of(v)
}

/// `items[i]` is the first of `items` that does not convert to `T`.
pub open spec fn first_rejected<T: ParseFrom<Value>>(items: Seq<Value>, i: int) -> bool {
    &&& 0 <= i < items.len()
    &&& !T::accepts(items[i])
    &&& forall|j: int| 0 <= j < i ==> T::accepts(#[trigger] items[j])
}

/// The error for a value whose variant does not fit, given the value's description.
pub fn failed_parsing_message(description: &str) -> (r: String)
    ensures
        r@ == "Failed parsing "@ + description@,
{
    let mut m = String::from_str("Failed parsing ");
    m.append(description);
    m
}

/// The error of a value that does not convert.
fn failed_parsing(value: &Value) -> (r: String)
    ensures
        r@ == failed_parsing_text(value@),
{
    failed_parsing_message(debug_text(value).as_str())
}

impl ParseFrom<Value> for () {
    open spec fn accepts(value: Value) -> bool {
        value@ is Okay
    }

    open spec fn converts_to(value: Value, out: ()) -> bool {
        true
    }

    open spec fn failure(value: Value) -> Seq<char> {
        failed_parsing_text(value@)
    }

    fn parse_from(value: Value) -> (r: Result<(), String>) {
        match value {
            Value::Okay => Ok(()),
            v => Err(failed_parsing(&v)),
        }
    }
}

impl ParseFrom<Value> for i64 {
    open spec fn accepts(value: Value) -> bool {
        value@ is Int
    }

    open spec fn converts_to(value: Value, out: i64) -> bool {
        value@ == Reply::Int(out as int)
    }

    open spec fn failure(value: Value) -> Seq<char> {
        failed_parsing_text(value@)
    }

    fn parse_from(value: Value) -> (r: Result<i64, String>) {
        match value {
            Value::Int(n) => Ok(n),
            v => Err(failed_parsing(&v)),
        }
    }
}

impl ParseFrom<Value> for Vec<u8> {
    open spec fn accepts(value: Value) -> bool {
        value@ is Bulk
    }

    open spec fn converts_to(value: Value, out: Vec<u8>) -> bool {
        value@ == Reply::Bulk(out@)
    }

    open spec fn failure(value: Value) -> Seq<char> {
        failed_parsing_text(value@)
    }

    fn parse_from(value: Value) -> (r: Result<Vec<u8>, String>) {
        match value {
            Value::Bulk(bytes) => Ok(bytes),
            v => Err(failed_parsing(&v)),
        }
    }
}

impl ParseFrom<Value> for String {
    open spec fn accepts(value: Value) -> bool {
        text_of(value@) is Some
    }

    open spec fn converts_to(value: Value, out: String) -> bool {
        text_of(value@) == Some(out@)
    }

    open spec fn failure(value: Value) -> Seq<char> {
        if value@ is Bulk {
            "invalid utf-8 sequence"@
        } else {
            failed_parsing_text(value@)
        }
    }

    fn parse_from(value: Value) -> (r: Result<String, String>) {
        match value {
            Value::Okay => {
                let s = String::from_str("Ok");
                proof {
                    reveal_strlit("Ok");
                }
                assert(s@ =~= seq!['O', 'k']);
                Ok(s)
            },
            Value::Nil => Ok(String::new()),
            Value::Int(n) => Ok(decimal_text(n as i128)),
            Value::Status(s) => Ok(s),
            Value::Bulk(bytes) => match utf8_string(bytes) {
                Some(s) => Ok(s),
                None => Err(String::from_str("invalid utf-8 sequence")),
            },
            v => Err(failed_parsing(&v)),
        }
    }
}

impl<T: ParseFrom<Value>> ParseFrom<Value> for Vec<T> {
    open spec fn accepts(value: Value) -> bool {
        value matches Value::Array(items) && forall|i: int|
            0 <= i < items@.len() ==> #[trigger] T::accepts(items@[i])
    }

    open spec fn converts_to(value: Value, out: Vec<T>) -> bool {
        value matches Value::Array(items) && out@.len() == items@.len() && forall|i: int|
            0 <= i < items@.len() ==> #[trigger] T::converts_to(items@[i], out@[i])
    }

    /// The failure of the first item that does not convert.
    open spec fn failure(value: Value) -> Seq<char> {
        match value {
            Value::Array(items) => if exists|i: int| first_rejected::<T>(items@, i) {
                T::failure(items@[choose|i: int| first_rejected::<T>(items@, i)])
            } else {
                failed_parsing_text(value@)
            },
            _ => failed_parsing_text(value@),
        }
    }

    fn parse_from(value: Value) -> (r: Result<Vec<T>, String>) {
        let ghost whole = value;
        match value {
            Value::Array(items) => {
                let ghost orig = items@;
                assert(whole matches Value::Array(a) && a@ == orig);
                let mut items = items;
                let mut result: Vec<T> = Vec::new();
                let mut i: usize = 0;
                while i < items.len()
                    invariant
                        i <= items@.len(),
                        items@.len() == orig.len(),
                        whole == value,
                        whole matches Value::Array(a) && a@ == orig,
                        result@.len() == i,
                        forall|j: int| i <= j < orig.len() ==> items@[j] == orig[j],
                        forall|j: int| 0 <= j < i ==> T::accepts(#[trigger] orig[j]),
                        forall|j: int| 0 <= j < i ==> T::converts_to(#[trigger] orig[j], result@[j]),
                    decreases orig.len() - i,
                {
                    let mut item = Value::Nil;
                    items.set_and_swap(i, &mut item);
                    match T::parse_from(item) {
                        Ok(out) => result.push(out),
                        Err(e) => {
                            assert(!T::accepts(orig[i as int]));
                            assert(!Self::accepts(whole));
                            proof {
                                assert(first_rejected::<T>(orig, i as int));
                                let k = choose|k: int| first_rejected::<T>(orig, k);
                                if k < i {
                                    assert(T::accepts(orig[k]));
                                } else if k > i {
                                    assert(T::accepts(orig[i as int]));
                                }
                            }
                            return Err(e);
                        },
                    }
                    i = i + 1;
                }
                Ok(result)
            },
            v => Err(failed_parsing(&v)),
        }
    }
}

/// Extracting an `i64` succeeds exactly on an integer reply, and gives its number.
pub proof fn lemma_integer_extraction(v: Value, out: i64)
    ensures
        <i64 as ParseFrom<Value>>::accepts(v) <==> v@ is Int,
        <i64 as ParseFrom<Value>>::converts_to(v, out) <==> v@ == Reply::Int(out as int),
{
}

/// Extracting text succeeds on `Okay`, `Nil`, integers, statuses and bulk
/// strings of valid UTF-8, and fails on other bulk strings and on arrays.
pub proof fn lemma_text_extraction(v: Value)
    ensures
        <String as ParseFrom<Value>>::accepts(v) <==> match v@ {
            Reply::Okay | Reply::Nil | Reply::Int(_) | Reply::Status(_) => true,
            Reply::Bulk(b) => valid_utf8(b),
            Reply::Array(_) => false,
        },
{
}

/// Extracting a sequence of `i64` succeeds exactly on an array of integer
/// replies, and gives their numbers in order.
pub proof fn lemma_integer_sequence_extraction(v: Value, out: Vec<i64>)
    ensures
        <Vec<i64> as ParseFrom<Value>>::accepts(v) <==> (v@ matches Reply::Array(items) && forall|i: int|
            0 <= i < items.len() ==> #[trigger] items[i] is Int),
        <Vec<i64> as ParseFrom<Value>>::converts_to(v, out) <==> v@ == Reply::Array(
            Seq::new(out@.len(), |i: int| Reply::Int(out@[i] as int)),
        ),
{
    if let Value::Array(items) = v {
        let t = v@->Array_0;
        assert(t =~= Seq::new(items@.len() as nat, |j: int| items@[j]@));
        let target = Seq::new(out@.len(), |i: int| Reply::Int(out@[i] as int));
        if <Vec<i64> as ParseFrom<Value>>::converts_to(v, out) {
            assert forall|i: int| 0 <= i < t.len() implies t[i] == target[i] by {
                assert(<i64 as ParseFrom<Value>>::converts_to(items@[i], out@[i]));
            }
            assert(t =~= target);
        }
        if v@ == Reply::Array(target) {
            assert forall|i: int| 0 <= i < items@.len() implies <i64 as ParseFrom<Value>>::converts_to(
                #[trigger] items@[i],
                out@[i],
            ) by {
                assert(t[i] == items@[i]@);
            }
        }
        if <Vec<i64> as ParseFrom<Value>>::accepts(v) {
            assert forall|i: int| 0 <= i < t.len() implies #[trigger] t[i] is Int by {
                assert(<i64 as ParseFrom<Value>>::accepts(items@[i]));
            }
        }
        if forall|i: int| 0 <= i < t.len() ==> #[trigger] t[i] is Int {
            assert forall|i: int| 0 <= i < items@.len() implies <i64 as ParseFrom<Value>>::accepts(
                #[trigger] items@[i],
            ) by {
                assert(t[i] is Int);
            }
        }
    }
}

/// Relies on `String::from_utf8`: it accepts exactly the byte sequences that are
/// valid UTF-8, and the string then holds the characters that they encode.
#[verifier::external_body]
pub(crate) fn utf8_string(bytes: Vec<u8>) -> (r: Option<String>)
    ensures
        r is Some <==> valid_utf8(bytes@),
        r matches Some(s) ==> s@ == decode_utf8(bytes@),
{
    String::from_utf8(bytes).ok()
}

/// Relies on `i128`'s `Display` (through `to_string`): the decimal digits of the
/// number without leading zeros, after a `-` if it is negative.
#[verifier::external_body]
pub(crate) fn decimal_text(n: i128) -> (r: String)
    ensures
        r@ == decimal_of(n as int),
{
    n.to_string()
}

/// Relies on the derived `Debug` of `Value`, to describe a value in an error:
/// its text depends on the value alone.
#[verifier::external_body]
fn debug_text(value: &Value) -> (r: String)
    ensures
        r@ == debug_of(value@),
{
    format!("{:?}", value)
}

} // verus!
