//! The relay protocol's grammar as spec functions over bytes.  Each parser in
//! [`crate::parser`] is proved to take exactly the step stated here.

use vstd::prelude::*;
use crate::bytes::{ErrorKind, ParseError, Step, spec_be_u32, spec_be_u8, spec_take_str, spec_split};

verus! {

/// The abstract value of a relay object; strings are their UTF-8 bytes.
pub enum ObjectModel {
    Str(Seq<u8>),
    Chr(char),
    Int(i32),
    Long(Seq<u8>),
    Buffer(Seq<u8>),
    Pointer(Seq<u8>),
    Time(Seq<u8>),
    HashTable,
    Hdata(Seq<u8>, Seq<Seq<Seq<u8>>>, u32, Seq<(Seq<ObjectModel>, Seq<ObjectModel>)>),
    Info(Seq<u8>, Seq<u8>),
    InfoList(Seq<u8>, u32, Seq<(u32, Seq<(Seq<u8>, ObjectModel)>)>),
    Array(Seq<u8>, u32, Seq<ObjectModel>),
}

/// The element types that the object parsers dispatch on.
#[derive(Debug, Clone, Copy, PartialEq, Eq, Structural)]
pub enum Kind {
    Int,
    Chr,
    Str,
    Ptr,
    Long,
    Buf,
    Arr,
    Tim,
}

/// A three-byte type tag.
pub open spec fn tag3(a: u8, b: u8, c: u8) -> Seq<u8> {
    seq![a, b, c]
}

/// The element type named by a key of an hdata object (`name:type`).  A long
/// is named `lon` by the protocol and `lng` by older relays; both are read.
pub open spec fn hdata_key_kind(t: Seq<u8>) -> Option<Kind> {
    if t == tag3(0x69, 0x6e, 0x74) /* int */ {
        Some(Kind::Int)
    } else if t == tag3(0x63, 0x68, 0x72) /* chr */ {
        Some(Kind::Chr)
    } else if t == tag3(0x73, 0x74, 0x72) /* str */ {
        Some(Kind::Str)
    } else if t == tag3(0x70, 0x74, 0x72) /* ptr */ {
        Some(Kind::Ptr)
    } else if t == tag3(0x6c, 0x6e, 0x67) /* lng */ {
        Some(Kind::Long)
    } else if t == tag3(0x6c, 0x6f, 0x6e) /* lon */ {
        Some(Kind::Long)
    } else if t == tag3(0x62, 0x75, 0x66) /* buf */ {
        Some(Kind::Buf)
    } else if t == tag3(0x61, 0x72, 0x72) /* arr */ {
        Some(Kind::Arr)
    } else if t == tag3(0x74, 0x69, 0x6d) /* tim */ {
        Some(Kind::Tim)
    } else {
        None
    }
}

/// The element type named by the type tag of an infolist variable: the
/// hdata key types except `tim` and `lon`, which infolist variables do not
/// take (a long variable is tagged `lng`).
pub open spec fn infolist_kind(t: Seq<u8>) -> Option<Kind> {
    if t == tag3(0x74, 0x69, 0x6d) /* tim */ || t == tag3(0x6c, 0x6f, 0x6e) /* lon */ {
        None
    } else {
        hdata_key_kind(t)
    }
}

/// The array element types that the parser does not handle.
pub open spec fn unsupported_array_tag(t: Seq<u8>) -> bool {
    t == tag3(0x68, 0x74, 0x62) /* htb */ || t == tag3(0x68, 0x64, 0x61) /* hda */ || t == tag3(0x69, 0x6e, 0x66) /* inf */ || t == tag3(0x69, 0x6e, 0x6c) /* inl */
}

/// The element type of an array with type tag `t`; an unknown tag reads
/// strings.
pub open spec fn array_kind(t: Seq<u8>) -> Kind {
    if t == tag3(0x69, 0x6e, 0x74) /* int */ {
        Kind::Int
    } else if t == tag3(0x6c, 0x6f, 0x6e) /* lon */ {
        Kind::Long
    } else if t == tag3(0x63, 0x68, 0x72) /* chr */ {
        Kind::Chr
    } else if t == tag3(0x70, 0x74, 0x72) /* ptr */ {
        Kind::Ptr
    } else if t == tag3(0x62, 0x75, 0x66) /* buf */ {
        Kind::Buf
    } else if t == tag3(0x61, 0x72, 0x72) /* arr */ {
        Kind::Arr
    } else if t == tag3(0x74, 0x69, 0x6d) /* tim */ {
        Kind::Tim
    } else {
        Kind::Str
    }
}

/// A string with a 4-byte big-endian length before it.
pub open spec fn spec_string32(s: Seq<u8>) -> Step<Seq<u8>> {
    match spec_be_u32(s) {
        Step::Done(n, _) => match spec_take_str(s.skip(4), n as nat) {
            Step::Done(v, c) => Step::Done(v, 4 + c),
            Step::Failed(e) => Step::Failed(e),
            Step::Aborted => Step::Aborted,
        },
        Step::Failed(e) => Step::Failed(e),
        Step::Aborted => Step::Aborted,
    }
}

/// A string with a 1-byte length before it.
pub open spec fn spec_string8(s: Seq<u8>) -> Step<Seq<u8>> {
    match spec_be_u8(s) {
        Step::Done(n, _) => match spec_take_str(s.skip(1), n as nat) {
            Step::Done(v, c) => Step::Done(v, 1 + c),
            Step::Failed(e) => Step::Failed(e),
            Step::Aborted => Step::Aborted,
        },
        Step::Failed(e) => Step::Failed(e),
        Step::Aborted => Step::Aborted,
    }
}

/// Wraps the value of a string step into an object.
pub open spec fn str_object(st: Step<Seq<u8>>, k: Kind) -> Step<ObjectModel> {
    match st {
        Step::Done(v, c) => Step::Done(
            match k {
                Kind::Long => ObjectModel::Long(v),
                Kind::Buf => ObjectModel::Buffer(v),
                Kind::Ptr => ObjectModel::Pointer(v),
                Kind::Tim => ObjectModel::Time(v),
                _ => ObjectModel::Str(v),
            },
            c,
        ),
        Step::Failed(e) => Step::Failed(e),
        Step::Aborted => Step::Aborted,
    }
}

/// One object of element type `k`.
pub open spec fn spec_object(k: Kind, s: Seq<u8>) -> Step<ObjectModel>
    decreases s.len(), 2nat, 0nat,
{
    match k {
        Kind::Int => match spec_be_u32(s) {
            Step::Done(v, c) => Step::Done(ObjectModel::Int(v as i32), c),
            Step::Failed(e) => Step::Failed(e),
            Step::Aborted => Step::Aborted,
        },
        Kind::Chr => match spec_be_u8(s) {
            Step::Done(b, c) => Step::Done(ObjectModel::Chr(b as char), c),
            Step::Failed(e) => Step::Failed(e),
            Step::Aborted => Step::Aborted,
        },
        Kind::Str => str_object(spec_string32(s), k),
        Kind::Long => str_object(spec_string32(s), k),
        Kind::Buf => str_object(spec_string32(s), k),
        Kind::Ptr => str_object(spec_string8(s), k),
        Kind::Tim => str_object(spec_string8(s), k),
        Kind::Arr => spec_array(s),
    }
}

/// An array: a 3-letter type tag, a count, then that many elements.
pub open spec fn spec_array(s: Seq<u8>) -> Step<ObjectModel>
    decreases s.len(), 1nat, 0nat,
{
    match spec_take_str(s, 3) {
        Step::Done(t, _) => match spec_be_u32(s.skip(3)) {
            Step::Done(n, _) => if unsupported_array_tag(t) {
                Step::Aborted
            } else {
                match spec_elements(array_kind(t), n as nat, s.skip(7)) {
                    Step::Done(vs, c) => Step::Done(ObjectModel::Array(t, n, vs), 7 + c),
                    Step::Failed(e) => Step::Failed(e),
                    Step::Aborted => Step::Aborted,
                }
            },
            Step::Failed(e) => Step::Failed(e),
            Step::Aborted => Step::Aborted,
        },
        Step::Failed(e) => Step::Failed(e),
        Step::Aborted => Step::Aborted,
    }
}

/// `n` consecutive objects of element type `k`.
pub open spec fn spec_elements(k: Kind, n: nat, s: Seq<u8>) -> Step<Seq<ObjectModel>>
    decreases s.len(), 3nat, n,
{
    if n == 0 {
        Step::Done(seq![], 0)
    } else {
        match spec_elements(k, (n - 1) as nat, s) {
            Step::Done(vs, c) => if c <= s.len() {
                match spec_object(k, s.skip(c as int)) {
                    Step::Done(v, c2) => Step::Done(vs.push(v), c + c2),
                    Step::Failed(e) => Step::Failed(e),
                    Step::Aborted => Step::Aborted,
                }
            } else {
                Step::Aborted
            },
            Step::Failed(e) => Step::Failed(e),
            Step::Aborted => Step::Aborted,
        }
    }
}

/// The 3-letter type tag that precedes an object.
pub open spec fn spec_type(s: Seq<u8>) -> Step<ObjectModel> {
    str_object(spec_take_str(s, 3), Kind::Str)
}

/// An `info` object: a name and a value, both strings.
pub open spec fn spec_info(s: Seq<u8>) -> Step<ObjectModel> {
    match spec_string32(s) {
        Step::Done(name, c1) => match spec_string32(s.skip(c1 as int)) {
            Step::Done(value, c2) => Step::Done(ObjectModel::Info(name, value), c1 + c2),
            Step::Failed(e) => Step::Failed(e),
            Step::Aborted => Step::Aborted,
        },
        Step::Failed(e) => Step::Failed(e),
        Step::Aborted => Step::Aborted,
    }
}

/// Once a run of elements stops, reading more elements stops the same way.
pub proof fn lemma_elements_stop(k: Kind, i: nat, j: nat, s: Seq<u8>)
    requires
        i <= j,
        !(spec_elements(k, i, s) is Done),
    ensures
        spec_elements(k, j, s) == spec_elements(k, i, s),
    decreases j,
{
    if j > i {
        lemma_elements_stop(k, i, (j - 1) as nat, s);
    }
}

/// A repeated element whose error is reported as a failed repetition.
pub open spec fn counted<T>(st: Step<T>) -> Step<T> {
    match st {
        Step::Failed(ParseError::Error(_)) => Step::Failed(ParseError::Error(ErrorKind::Count)),
        _ => st,
    }
}

/// A tagged alternative whose error is reported as a failed switch.
pub open spec fn switched<T>(st: Step<T>) -> Step<T> {
    match st {
        Step::Failed(ParseError::Error(_)) => Step::Failed(ParseError::Error(ErrorKind::Switch)),
        _ => st,
    }
}

/// `n` consecutive elements read by `item`.
pub open spec fn spec_many<T>(item: spec_fn(Seq<u8>) -> Step<T>, n: nat, s: Seq<u8>) -> Step<Seq<T>>
    decreases n,
{
    if n == 0 {
        Step::Done(seq![], 0)
    } else {
        match spec_many(item, (n - 1) as nat, s) {
            Step::Done(vs, c) => if c <= s.len() {
                match item(s.skip(c as int)) {
                    Step::Done(v, c2) => Step::Done(vs.push(v), c + c2),
                    Step::Failed(e) => Step::Failed(e),
                    Step::Aborted => Step::Aborted,
                }
            } else {
                Step::Aborted
            },
            Step::Failed(e) => Step::Failed(e),
            Step::Aborted => Step::Aborted,
        }
    }
}

/// Once a repetition stops, repeating more stops the same way.
pub proof fn lemma_many_stop<T>(item: spec_fn(Seq<u8>) -> Step<T>, i: nat, j: nat, s: Seq<u8>)
    requires
        i <= j,
        !(spec_many(item, i, s) is Done),
    ensures
        spec_many(item, j, s) == spec_many(item, i, s),
    decreases j,
{
    if j > i {
        lemma_many_stop(item, i, (j - 1) as nat, s);
    }
}

/// The number of occurrences of byte `b` in `s`.
pub open spec fn count_byte(s: Seq<u8>, b: u8) -> nat
    decreases s.len(),
{
    if s.len() == 0 {
        0
    } else {
        count_byte(s.drop_last(), b) + if s.last() == b {
            1nat
        } else {
            0nat
        }
    }
}

/// The keys of an hdata object: the `,`-separated (0x2c) keys, each split at
/// `:` (0x3a).
pub open spec fn spec_keys(s: Seq<u8>) -> Seq<Seq<Seq<u8>>> {
    spec_split(s, 0x2c).map_values(|g: Seq<u8>| spec_split(g, 0x3a))
}

/// The keys string of an hdata object.
pub open spec fn spec_hdata_keys(s: Seq<u8>) -> Step<Seq<Seq<Seq<u8>>>> {
    match spec_string32(s) {
        Step::Done(name, c) => Step::Done(spec_keys(name), c),
        Step::Failed(e) => Step::Failed(e),
        Step::Aborted => Step::Aborted,
    }
}

/// The element type of an hdata key; `None` when the key has no type part
/// or an unknown one.
pub open spec fn key_kind(key: Seq<Seq<u8>>) -> Option<Kind> {
    if key.len() < 2 {
        None
    } else {
        hdata_key_kind(key[1])
    }
}

/// One pointer of an hdata path, as an element of a repetition.
pub open spec fn pointer_item() -> spec_fn(Seq<u8>) -> Step<ObjectModel> {
    |s: Seq<u8>| counted(spec_object(Kind::Ptr, s))
}

/// The values of one hdata object for its first `m` keys, in key order; any
/// key or value that cannot be read leaves the object unhandled.
pub open spec fn spec_hdata_values(keys: Seq<Seq<Seq<u8>>>, m: nat, s: Seq<u8>) -> Step<Seq<ObjectModel>>
    decreases m,
{
    if m == 0 {
        Step::Done(seq![], 0)
    } else {
        match spec_hdata_values(keys, (m - 1) as nat, s) {
            Step::Done(vs, c) => if c <= s.len() {
                match key_kind(keys[m - 1]) {
                    Some(k) => match spec_object(k, s.skip(c as int)) {
                        Step::Done(v, c2) => Step::Done(vs.push(v), c + c2),
                        _ => Step::Aborted,
                    },
                    None => Step::Aborted,
                }
            } else {
                Step::Aborted
            },
            Step::Failed(e) => Step::Failed(e),
            Step::Aborted => Step::Aborted,
        }
    }
}

/// Once the values of an hdata object stop, reading more keys stops the
/// same way.
pub proof fn lemma_hdata_values_stop(keys: Seq<Seq<Seq<u8>>>, i: nat, j: nat, s: Seq<u8>)
    requires
        i <= j,
        !(spec_hdata_values(keys, i, s) is Done),
    ensures
        spec_hdata_values(keys, j, s) == spec_hdata_values(keys, i, s),
    decreases j,
{
    if j > i {
        lemma_hdata_values_stop(keys, i, (j - 1) as nat, s);
    }
}

/// One object of an hdata: `np` pointers (its path), then one value per key.
pub open spec fn spec_hdata_entry(keys: Seq<Seq<Seq<u8>>>, np: nat, s: Seq<u8>) -> Step<
    (Seq<ObjectModel>, Seq<ObjectModel>),
> {
    match spec_many(pointer_item(), np, s) {
        Step::Done(ps, c) => match spec_hdata_values(keys, keys.len(), s.skip(c as int)) {
            Step::Done(vs, c2) => Step::Done((ps, vs), c + c2),
            Step::Failed(e) => Step::Failed(e),
            Step::Aborted => Step::Aborted,
        },
        Step::Failed(e) => Step::Failed(e),
        Step::Aborted => Step::Aborted,
    }
}

/// One hdata object, as an element of a repetition.
pub open spec fn entry_item(keys: Seq<Seq<Seq<u8>>>, np: nat) -> spec_fn(Seq<u8>) -> Step<
    (Seq<ObjectModel>, Seq<ObjectModel>),
> {
    |s: Seq<u8>| counted(spec_hdata_entry(keys, np, s))
}

/// An `hda` object: its path, its keys, a count, then that many objects,
/// each with one pointer per element of the path (the path's `/`, 0x2f,
/// count plus one) and one value per key.
pub open spec fn spec_hdata(s: Seq<u8>) -> Step<ObjectModel> {
    match spec_string32(s) {
        Step::Done(path, c1) => match spec_hdata_keys(s.skip(c1 as int)) {
            Step::Done(keys, c2) => match spec_be_u32(s.skip((c1 + c2) as int)) {
                Step::Done(n, c3) => match spec_many(
                    entry_item(keys, count_byte(path, 0x2f) + 1),
                    n as nat,
                    s.skip((c1 + c2 + c3) as int),
                ) {
                    Step::Done(es, c4) => Step::Done(
                        ObjectModel::Hdata(path, keys, n, es),
                        c1 + c2 + c3 + c4,
                    ),
                    Step::Failed(e) => Step::Failed(e),
                    Step::Aborted => Step::Aborted,
                },
                Step::Failed(e) => Step::Failed(e),
                Step::Aborted => Step::Aborted,
            },
            Step::Failed(e) => Step::Failed(e),
            Step::Aborted => Step::Aborted,
        },
        Step::Failed(e) => Step::Failed(e),
        Step::Aborted => Step::Aborted,
    }
}

/// One variable of an infolist item: its name, a 3-letter type, its value.
pub open spec fn spec_infolist_var(s: Seq<u8>) -> Step<(Seq<u8>, ObjectModel)> {
    match spec_string32(s) {
        Step::Done(name, c1) => match switched(spec_take_str(s.skip(c1 as int), 3)) {
            Step::Done(t, _) => match infolist_kind(t) {
                Some(k) => match switched(spec_object(k, s.skip((c1 + 3) as int))) {
                    Step::Done(v, c2) => Step::Done((name, v), c1 + 3 + c2),
                    Step::Failed(e) => Step::Failed(e),
                    Step::Aborted => Step::Aborted,
                },
                None => Step::Failed(ParseError::Error(ErrorKind::Switch)),
            },
            Step::Failed(e) => Step::Failed(e),
            Step::Aborted => Step::Aborted,
        },
        Step::Failed(e) => Step::Failed(e),
        Step::Aborted => Step::Aborted,
    }
}

/// One variable of an infolist item, as an element of a repetition.
pub open spec fn var_item() -> spec_fn(Seq<u8>) -> Step<(Seq<u8>, ObjectModel)> {
    |s: Seq<u8>| counted(spec_infolist_var(s))
}

/// One infolist item: a count, then that many variables.
pub open spec fn spec_infolist_item(s: Seq<u8>) -> Step<(u32, Seq<(Seq<u8>, ObjectModel)>)> {
    match spec_be_u32(s) {
        Step::Done(n, c1) => match spec_many(var_item(), n as nat, s.skip(c1 as int)) {
            Step::Done(vs, c2) => Step::Done((n, vs), c1 + c2),
            Step::Failed(e) => Step::Failed(e),
            Step::Aborted => Step::Aborted,
        },
        Step::Failed(e) => Step::Failed(e),
        Step::Aborted => Step::Aborted,
    }
}

/// One infolist item, as an element of a repetition.
pub open spec fn item_item() -> spec_fn(Seq<u8>) -> Step<(u32, Seq<(Seq<u8>, ObjectModel)>)> {
    |s: Seq<u8>| counted(spec_infolist_item(s))
}

/// An `inl` object: its name, a count, then that many items.
pub open spec fn spec_infolist(s: Seq<u8>) -> Step<ObjectModel> {
    match spec_string32(s) {
        Step::Done(name, c1) => match spec_be_u32(s.skip(c1 as int)) {
            Step::Done(n, c2) => match spec_many(item_item(), n as nat, s.skip((c1 + c2) as int)) {
                Step::Done(items, c3) => Step::Done(ObjectModel::InfoList(name, n, items), c1 + c2 + c3),
                Step::Failed(e) => Step::Failed(e),
                Step::Aborted => Step::Aborted,
            },
            Step::Failed(e) => Step::Failed(e),
            Step::Aborted => Step::Aborted,
        },
        Step::Failed(e) => Step::Failed(e),
        Step::Aborted => Step::Aborted,
    }
}

/// The header of every message: the body length and whether the body is
/// compressed (the flag byte is 1).
pub open spec fn spec_header(s: Seq<u8>) -> Step<(u32, bool)> {
    match spec_be_u32(s) {
        Step::Done(len, _) => match spec_be_u8(s.skip(4)) {
            Step::Done(flag, _) => Step::Done((len, flag == 1), 5),
            Step::Failed(e) => Step::Failed(e),
            Step::Aborted => Step::Aborted,
        },
        Step::Failed(e) => Step::Failed(e),
        Step::Aborted => Step::Aborted,
    }
}

} // verus!
