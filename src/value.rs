use smallvec::SmallVec;
use vstd::prelude::*;

verus! {

broadcast use vstd::std_specs::vec::group_vec_axioms;

/// The bytes of a string: held inline up to sixteen, on the heap beyond.
#[verifier::external_body]
#[derive(Debug, PartialEq)]
pub struct StringVec {
    inner: SmallVec<[u8; 16]>,
}

/// The arguments of a request: held inline up to three, on the heap beyond.
#[verifier::external_body]
#[derive(Debug, PartialEq)]
pub struct ArgsVec {
    inner: SmallVec<[RedisValue; 3]>,
}

/// The bytes that a string vector holds, in order.
pub uninterp spec fn string_bytes(v: StringVec) -> Seq<u8>;

/// The values that an argument vector holds, in order.
pub uninterp spec fn arg_items(v: ArgsVec) -> Seq<RedisValue>;

/// Relies on smallvec's `SmallVec::from_vec`: the vector's elements are kept, in order.
#[verifier::external_body]
fn bytes_from_vec(v: Vec<u8>) -> (r: StringVec)
    ensures
        string_bytes(r) == v@,
{
    StringVec { inner: SmallVec::from_vec(v) }
}

/// Relies on smallvec's `SmallVec::from_vec`: the vector's elements are kept, in order.
#[verifier::external_body]
fn args_from_vec(v: Vec<RedisValue>) -> (r: ArgsVec)
    ensures
        arg_items(r) == v@,
{
    ArgsVec { inner: SmallVec::from_vec(v) }
}

impl StringVec {
    /// A string vector that holds the bytes of `v`.
    pub fn from_vec(v: Vec<u8>) -> (r: StringVec)
        ensures
            string_bytes(r) == v@,
    {
        bytes_from_vec(v)
    }
}

impl ArgsVec {
    /// An argument vector that holds the values of `v`.
    pub fn from_vec(v: Vec<RedisValue>) -> (r: ArgsVec)
        ensures
            arg_items(r) == v@,
    {
        args_from_vec(v)
    }
}

/// The mathematical model of a RESP value.
pub ghost enum Value {
    Array(Seq<Value>),
    SimpleString(Seq<u8>),
    String(Seq<u8>),
    Integer(int),
    Error(Seq<u8>),
    Null,
}

/// A RESP value as the decoder builds it.
#[derive(Debug, PartialEq)]
pub enum RedisValue {
    Array(Vec<RedisValue>),
    SimpleString(StringVec),
    String(StringVec),
    Integer(i64),
    Error(StringVec),
    Null,
}

/// The model of a request: the command's name and its arguments.
pub ghost struct Request {
    pub command: Seq<u8>,
    pub args: Seq<Value>,
}

/// The models of a sequence of values.
pub open spec fn values_view(v: Seq<RedisValue>) -> Seq<Value> {
    Seq::new(v.len(), |i: int| v[i].view())
}

/// A decoded request: a command name and its arguments.
#[derive(Debug, PartialEq)]
pub struct RedisRequest {
    pub command: StringVec,
    pub args: ArgsVec,
}

impl RedisRequest {
    pub open spec fn view(&self) -> Request {
        Request { command: string_bytes(self.command), args: values_view(arg_items(self.args)) }
    }
}

impl RedisValue {
    pub open spec fn view(&self) -> Value
        decreases self,
    {
        match self {
            RedisValue::Array(items) => Value::Array(
                Seq::new(items.len() as nat, |i: int|
                    if 0 <= i < items.len() { items[i].view() } else { Value::Null }),
            ),
            RedisValue::SimpleString(b) => Value::SimpleString(string_bytes(*b)),
            RedisValue::String(b) => Value::String(string_bytes(*b)),
            RedisValue::Integer(n) => Value::Integer(*n as int),
            RedisValue::Error(b) => Value::Error(string_bytes(*b)),
            RedisValue::Null => Value::Null,
        }
    }

    pub proof fn lemma_array_view(items: Vec<RedisValue>)
        ensures
            RedisValue::Array(items).view() == Value::Array(values_view(items@)),
    {
        let v = RedisValue::Array(items);
        let a = v.view()->Array_0;
        assert(v.view() is Array);
        assert(a.len() == items.len());
        assert forall|i: int| 0 <= i < items.len() implies a[i] == #[trigger] items[i].view() by {}
        assert(a =~= values_view(items@));
    }
}

} // verus!
