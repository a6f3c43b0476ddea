//! The RESP value model: the five wire value variants, their mathematical
//! model, and the canonical encoding to wire text.

use crate::decimal::dec_int;
use crate::decimal::dec_nat;
use crate::decimal::i64_to_dec;
use crate::decimal::u64_to_dec;
use vstd::prelude::*;
use vstd::string::StrSliceExecFns;
use vstd::string::StringExecFns;

verus! {

/// A RESP wire value.
#[derive(Debug)]
pub enum RESPValue {
    SimpleString(String),
    Error(String),
    Integer(i64),
    BulkString(String),
    Array(Vec<RESPValue>),
}

/// The mathematical model of a RESP value: text as character sequences,
/// integers unbounded, arrays as sequences.
pub enum RespData {
    SimpleString(Seq<char>),
    Error(Seq<char>),
    Integer(int),
    BulkString(Seq<char>),
    Array(Seq<RespData>),
}

/// Models of the values from index `i` on.
pub open spec fn view_list(vs: Seq<RESPValue>, i: int) -> Seq<RespData>
    decreases vs, vs.len() - i + 1,
{
    if i < 0 || i >= vs.len() {
        Seq::empty()
    } else {
        ({
            proof {
                broadcast use vstd::seq::group_seq_axioms;

                assert(decreases_to!(vs => vs[i]));
            }
            seq![vs[i].deep_view()]
        }) + view_list(vs, i + 1)
    }
}

impl DeepView for RESPValue {
    type V = RespData;

    open spec fn deep_view(&self) -> RespData
        decreases self, 0nat,
    {
        match self {
            RESPValue::SimpleString(s) => RespData::SimpleString(s@),
            RESPValue::Error(s) => RespData::Error(s@),
            RESPValue::Integer(n) => RespData::Integer(*n as int),
            RESPValue::BulkString(s) => RespData::BulkString(s@),
            RESPValue::Array(vs) => {
                proof {
                    broadcast use vstd::std_specs::vec::group_vec_axioms;

                    assert(decreases_to!(*self => self->Array_0));
                    assert(self->Array_0 == *vs);
                    assert(decreases_to!(*vs => vs@));
                }
                RespData::Array(view_list(vs@, 0))
            },
        }
    }
}

/// `view_list` reads back element by element.
pub proof fn lemma_view_list(vs: Seq<RESPValue>, i: int)
    requires
        0 <= i <= vs.len(),
    ensures
        view_list(vs, i).len() == vs.len() - i,
        forall|j: int|
            i <= j < vs.len() ==> view_list(vs, i)[j - i] == #[trigger] vs[j].deep_view(),
    decreases vs.len() - i,
{
    if i < vs.len() {
        lemma_view_list(vs, i + 1);
        assert(view_list(vs, i) == seq![vs[i].deep_view()] + view_list(vs, i + 1));
    } else {
        assert(view_list(vs, i) == Seq::<RespData>::empty());
    }
}

impl Clone for RESPValue {
    /// Cloning preserves the modelled value.
    fn clone(&self) -> (r: Self)
        ensures
            r.deep_view() == self.deep_view(),
        decreases self,
    {
        match self {
            RESPValue::SimpleString(s) => RESPValue::SimpleString(s.clone()),
            RESPValue::Error(s) => RESPValue::Error(s.clone()),
            RESPValue::Integer(n) => RESPValue::Integer(*n),
            RESPValue::BulkString(s) => RESPValue::BulkString(s.clone()),
            RESPValue::Array(vs) => {
                let mut out: Vec<RESPValue> = Vec::new();
                let n = vs.len();
                let mut i: usize = 0;
                while i < n
                    invariant
                        *self is Array,
                        self->Array_0 == *vs,
                        n == vs.len(),
                        i <= n,
                        out@.len() == i,
                        forall|j: int|
                            0 <= j < i ==> #[trigger] out@[j].deep_view() == vs@[j].deep_view(),
                    decreases n - i,
                {
                    let e = &vs[i];
                    proof {
                        broadcast use vstd::std_specs::vec::group_vec_axioms;

                        assert(decreases_to!(*self => self->Array_0));
                        assert(decreases_to!(*vs => vs@[i as int]));
                    }
                    out.push(e.clone());
                    i = i + 1;
                }
                proof {
                    lemma_view_list(out@, 0);
                    lemma_view_list(vs@, 0);
                    assert forall|j: int| 0 <= j < vs@.len() implies view_list(out@, 0)[j]
                        == view_list(vs@, 0)[j] by {
                        assert(out@[j].deep_view() == vs@[j].deep_view());
                    }
                    assert(view_list(out@, 0) =~= view_list(vs@, 0));
                }
                RESPValue::Array(out)
            },
        }
    }
}

/// `view_list` agrees with the element-wise model of a vector of values.
pub proof fn lemma_view_list_deep(vs: Seq<RESPValue>)
    ensures
        view_list(vs, 0) == Seq::new(vs.len(), |i: int| vs[i].deep_view()),
{
    lemma_view_list(vs, 0);
    assert(view_list(vs, 0) =~= Seq::new(vs.len(), |i: int| vs[i].deep_view()));
}

/// Equality of wire values is equality of their models.
fn resp_eq(x: &RESPValue, y: &RESPValue) -> (r: bool)
    ensures
        r == (x.deep_view() == y.deep_view()),
    decreases x,
{
    match (x, y) {
        (RESPValue::SimpleString(a), RESPValue::SimpleString(b)) => {
            let r = *a == *b;
            proof {
                assert(x.deep_view() == RespData::SimpleString(a@));
                assert(y.deep_view() == RespData::SimpleString(b@));
            }
            r
        },
        (RESPValue::Error(a), RESPValue::Error(b)) => {
            let r = *a == *b;
            proof {
                assert(x.deep_view() == RespData::Error(a@));
                assert(y.deep_view() == RespData::Error(b@));
            }
            r
        },
        (RESPValue::Integer(a), RESPValue::Integer(b)) => a == b,
        (RESPValue::BulkString(a), RESPValue::BulkString(b)) => {
            let r = *a == *b;
            proof {
                assert(x.deep_view() == RespData::BulkString(a@));
                assert(y.deep_view() == RespData::BulkString(b@));
            }
            r
        },
        (RESPValue::Array(xs), RESPValue::Array(ys)) => {
            proof {
                lemma_view_list(xs@, 0);
                lemma_view_list(ys@, 0);
                assert(x.deep_view() == RespData::Array(view_list(xs@, 0)));
                assert(y.deep_view() == RespData::Array(view_list(ys@, 0)));
            }
            if xs.len() != ys.len() {
                return false;
            }
            let n = xs.len();
            let mut i: usize = 0;
            while i < n
                invariant
                    *x is Array,
                    x->Array_0 == *xs,
                    *y is Array,
                    y->Array_0 == *ys,
                    n == xs.len(),
                    n == ys.len(),
                    i <= n,
                    forall|j: int|
                        0 <= j < i ==> #[trigger] xs@[j].deep_view() == ys@[j].deep_view(),
                decreases n - i,
            {
                let a = &xs[i];
                let b = &ys[i];
                proof {
                    broadcast use vstd::std_specs::vec::group_vec_axioms;

                    assert(decreases_to!(*x => x->Array_0));
                    assert(decreases_to!(*xs => xs@[i as int]));
                }
                if !resp_eq(a, b) {
                    proof {
                        lemma_view_list(xs@, 0);
                        lemma_view_list(ys@, 0);
                        assert(view_list(xs@, 0)[i as int] != view_list(ys@, 0)[i as int]);
                    }
                    return false;
                }
                i = i + 1;
            }
            proof {
                lemma_view_list(xs@, 0);
                lemma_view_list(ys@, 0);
                assert forall|j: int| 0 <= j < n implies view_list(xs@, 0)[j] == view_list(
                    ys@,
                    0,
                )[j] by {
                    assert(xs@[j].deep_view() == ys@[j].deep_view());
                }
                assert(view_list(xs@, 0) =~= view_list(ys@, 0));
            }
            true
        },
        _ => {
            proof {
                assert(x.deep_view() != y.deep_view());
            }
            false
        },
    }
}

impl PartialEq for RESPValue {
    fn eq(&self, other: &Self) -> (r: bool)
        ensures
            r == (self.deep_view() == other.deep_view()),
    {
        resp_eq(self, other)
    }
}

impl vstd::std_specs::cmp::PartialEqSpecImpl for RESPValue {
    open spec fn obeys_eq_spec() -> bool {
        true
    }

    open spec fn eq_spec(&self, other: &Self) -> bool {
        self.deep_view() == other.deep_view()
    }
}

/// The line terminator of RESP.
pub open spec fn crlf() -> Seq<char> {
    seq!['\r', '\n']
}

/// Canonical wire encoding of a RESP value.
pub open spec fn encode(v: RespData) -> Seq<char>
    decreases v, 0nat,
{
    match v {
        RespData::SimpleString(s) => seq!['+'] + s + crlf(),
        RespData::Error(s) => seq!['-'] + s + crlf(),
        RespData::Integer(n) => seq![':'] + dec_int(n) + crlf(),
        RespData::BulkString(s) => seq!['$'] + dec_nat(s.len()) + crlf() + s + crlf(),
        RespData::Array(vs) => seq!['*'] + dec_nat(vs.len()) + crlf() + encode_list(vs, 0),
    }
}

/// Concatenated encodings of the array elements from index `i` on.
pub open spec fn encode_list(vs: Seq<RespData>, i: int) -> Seq<char>
    decreases vs, vs.len() - i + 1,
{
    if i < 0 || i >= vs.len() {
        Seq::empty()
    } else {
        encode(vs[i]) + encode_list(vs, i + 1)
    }
}

/// Text that fits on one RESP line: no carriage return, no line feed.
pub open spec fn line_ok(s: Seq<char>) -> bool {
    forall|i: int| 0 <= i < s.len() ==> (#[trigger] s[i]) != '\r' && s[i] != '\n'
}

/// Text without an embedded line terminator.
pub open spec fn no_crlf(s: Seq<char>) -> bool {
    forall|i: int| 0 <= i && i + 1 < s.len() ==> !((#[trigger] s[i]) == '\r' && s[i + 1] == '\n')
}

/// The supported subset of RESP values: values whose encoding the
/// line-oriented parser can read back. Simple strings and errors carry one
/// clean line, bulk strings carry no embedded terminator, integers fit a
/// 64-bit signed word, and array lengths fit an index.
pub open spec fn wf(v: RespData) -> bool
    decreases v, 0nat,
{
    match v {
        RespData::SimpleString(s) => line_ok(s),
        RespData::Error(s) => line_ok(s),
        RespData::Integer(n) => i64::MIN <= n <= i64::MAX,
        RespData::BulkString(s) => no_crlf(s),
        RespData::Array(vs) => vs.len() <= usize::MAX && wf_list(vs, 0),
    }
}

/// All elements from index `i` on are in the supported subset.
pub open spec fn wf_list(vs: Seq<RespData>, i: int) -> bool
    decreases vs, vs.len() - i + 1,
{
    if i < 0 || i >= vs.len() {
        true
    } else {
        wf(vs[i]) && wf_list(vs, i + 1)
    }
}

impl RESPValue {
    /// Serializes the value to its canonical wire text.
    pub fn encode(&self) -> (s: String)
        ensures
            s@ == encode(self.deep_view()),
        decreases self,
    {
        proof {
            reveal_strlit("+");
            reveal_strlit("-");
            reveal_strlit(":");
            reveal_strlit("$");
            reveal_strlit("*");
            reveal_strlit("\r\n");
        }
        match self {
            RESPValue::SimpleString(s) => {
                let mut r = String::from_str("+");
                r.append(s.as_str());
                r.append("\r\n");
                r
            },
            RESPValue::Error(s) => {
                let mut r = String::from_str("-");
                r.append(s.as_str());
                r.append("\r\n");
                r
            },
            RESPValue::Integer(n) => {
                let mut r = String::from_str(":");
                let digits = i64_to_dec(*n);
                r.append(digits.as_str());
                r.append("\r\n");
                r
            },
            RESPValue::BulkString(s) => {
                let mut r = String::from_str("$");
                let digits = u64_to_dec(s.as_str().unicode_len() as u64);
                r.append(digits.as_str());
                r.append("\r\n");
                r.append(s.as_str());
                r.append("\r\n");
                r
            },
            RESPValue::Array(vs) => {
                let ghost ds = view_list(vs@, 0);
                proof {
                    lemma_view_list(vs@, 0);
                }
                let mut r = String::from_str("*");
                let digits = u64_to_dec(vs.len() as u64);
                r.append(digits.as_str());
                r.append("\r\n");
                let n = vs.len();
                let mut i: usize = 0;
                while i < n
                    invariant
                        *self is Array,
                        self->Array_0 == *vs,
                        n == vs.len(),
                        i <= n,
                        ds.len() == n,
                        forall|k: int| 0 <= k < n ==> ds[k] == #[trigger] vs@[k].deep_view(),
                        r@ + encode_list(ds, i as int) == seq!['*'] + dec_nat(ds.len()) + crlf()
                            + encode_list(ds, 0),
                    decreases n - i,
                {
                    let e = &vs[i];
                    proof {
                        broadcast use vstd::std_specs::vec::group_vec_axioms;

                        assert(decreases_to!(*self => self->Array_0));
                        assert(decreases_to!(*vs => vs@[i as int]));
                    }
                    let piece = e.encode();
                    r.append(piece.as_str());
                    proof {
                        assert(encode_list(ds, i as int) == encode(ds[i as int]) + encode_list(
                            ds,
                            i + 1,
                        ));
                        assert(e.deep_view() == ds[i as int]);
                    }
                    i = i + 1;
                }
                proof {
                    assert(encode_list(ds, n as int) =~= Seq::<char>::empty());
                    assert(r@ =~= r@ + encode_list(ds, n as int));
                }
                r
            },
        }
    }
}

} // verus!
